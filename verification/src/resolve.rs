use vstd::prelude::*;
use vstd::pervasive::VecAdditionalExecFns;
use crate::parser::{Block, BlockV, Blocks};
use crate::value::bytes_clone;

verus! {

/// Why dependency resolution failed.
#[derive(Debug, PartialEq)]
pub enum ResolveError {
    /// A directive named by `call` (or as the entry) is not in the mapping.
    NotFound(Vec<u8>),
    /// A directive was reached again while still being resolved.
    Circular(Vec<u8>),
}

/// Mathematical model of a `ResolveError`.
pub enum ResolveErrV {
    NotFound(Seq<u8>),
    Circular(Seq<u8>),
}

impl View for ResolveError {
    type V = ResolveErrV;

    open spec fn view(&self) -> ResolveErrV {
        match self {
            ResolveError::NotFound(n) => ResolveErrV::NotFound(n@),
            ResolveError::Circular(n) => ResolveErrV::Circular(n@),
        }
    }
}

/// `order` lists existing directives so that every dependency of a listed
/// directive appears strictly earlier: a topological order of the `call`
/// relation.
pub open spec fn topo_order(m: Map<Seq<u8>, BlockV>, order: Seq<Seq<u8>>) -> bool {
    &&& (forall|i: int| 0 <= i < order.len() ==> m.contains_key(#[trigger] order[i]))
    &&& (forall|i: int, di: int|
        0 <= i < order.len() && 0 <= di < m[order[i]].deps.len() ==> order.take(i).contains(
            #[trigger] m[order[i]].deps[di],
        ))
}

/// The names an entry list stands for.
pub open spec fn names_of(s: Seq<Vec<u8>>) -> Seq<Seq<u8>> {
    s.map(|x: int, n: Vec<u8>| n@)
}

/// Extending a list never removes a name from it.
proof fn lemma_prefix_contains(pre: Seq<Seq<u8>>, post: Seq<Seq<u8>>)
    requires
        pre.len() <= post.len(),
        forall|q: int| 0 <= q < pre.len() ==> post[q] == #[trigger] pre[q],
    ensures
        forall|n: Seq<u8>| pre.contains(n) ==> post.contains(n),
{
    assert forall|n: Seq<u8>| pre.contains(n) implies post.contains(n) by {
        let q = choose|q: int| 0 <= q < pre.len() && pre[q] == n;
        assert(post[q] == n);
    }
}

/// A topological order stays one when a directive is appended after all of
/// its dependencies.
proof fn lemma_topo_push(m: Map<Seq<u8>, BlockV>, order: Seq<Seq<u8>>, extra: Seq<u8>)
    requires
        topo_order(m, order),
        m.contains_key(extra),
        forall|d: int| 0 <= d < m[extra].deps.len() ==> order.contains(#[trigger] m[extra].deps[d]),
    ensures
        topo_order(m, order.push(extra)),
{
    let post = order.push(extra);
    assert forall|i: int| 0 <= i < post.len() implies m.contains_key(#[trigger] post[i]) by {
        if i < order.len() {
            assert(post[i] == order[i]);
        } else {
            assert(post[i] == extra);
        }
    }
    assert forall|i: int, di: int|
        0 <= i < post.len() && 0 <= di < m[post[i]].deps.len() implies post.take(i).contains(
        #[trigger] m[post[i]].deps[di],
    ) by {
        if i < order.len() {
            assert(post[i] == order[i]);
            assert(post.take(i) =~= order.take(i));
            assert(order.take(i).contains(m[order[i]].deps[di]));
        } else {
            assert(post[i] == extra);
            assert(post.take(i) =~= order);
            assert(order.contains(m[extra].deps[di]));
        }
    }
}

/// A directive is resolvable when it sits in some topological order of
/// existing directives: every directive reachable from it through `call`
/// exists, and no cycle is reachable from it.
pub open spec fn resolvable(m: Map<Seq<u8>, BlockV>, entry: Seq<u8>) -> bool {
    exists|order: Seq<Seq<u8>>| order.contains(entry) && topo_order(m, order)
}

/// Ranks strictly descend along a dependency cycle inside a topological
/// order, so no directive on a cycle can appear in one.
proof fn lemma_cycle_rank_descends(
    m: Map<Seq<u8>, BlockV>,
    ord: Seq<Seq<u8>>,
    c: Seq<Seq<u8>>,
    k: int,
)
    requires
        topo_order(m, ord),
        c.len() > 0,
        ord.contains(c[0]),
        forall|t: int| 0 <= t < c.len() - 1 ==> m[#[trigger] c[t]].deps.contains(c[t + 1]),
        0 <= k < c.len(),
    ensures
        ord.contains(c[k]),
        first_at(ord, c[k]) <= first_at(ord, c[0]) - k,
    decreases k,
{
    if k > 0 {
        lemma_cycle_rank_descends(m, ord, c, k - 1);
        let dd = choose|dd: int|
            0 <= dd < m[c[k - 1]].deps.len() && #[trigger] m[c[k - 1]].deps[dd] == c[k];
        lemma_topo_dep_rank(m, ord, c[k - 1], dd);
    }
}

/// A directive on a dependency cycle sits in no topological order: a cycle
/// through it rules resolution out.
pub proof fn lemma_cycle_blocks_resolution(m: Map<Seq<u8>, BlockV>, n: Seq<u8>)
    requires
        on_cycle(m, n),
    ensures
        !resolvable(m, n),
{
    if resolvable(m, n) {
        let ord = choose|ord: Seq<Seq<u8>>| ord.contains(n) && topo_order(m, ord);
        let c = choose|c: Seq<Seq<u8>>|
            {
                &&& c.len() > 0
                &&& c[0] == n
                &&& (forall|t: int| 0 <= t < c.len() ==> m.contains_key(#[trigger] c[t]))
                &&& (forall|t: int|
                    0 <= t < c.len() - 1 ==> m[#[trigger] c[t]].deps.contains(c[t + 1]))
                &&& m[c.last()].deps.contains(c[0])
            };
        lemma_cycle_rank_descends(m, ord, c, c.len() - 1);
        // the closing edge would push the first rank below itself
        let dd = choose|dd: int|
            0 <= dd < m[c.last()].deps.len() && #[trigger] m[c.last()].deps[dd] == c[0];
        lemma_topo_dep_rank(m, ord, c.last(), dd);
    }
}

/// How many entries are still unvisited.
pub open spec fn count_falses(s: Seq<bool>) -> int
    decreases s.len(),
{
    if s.len() == 0 {
        0
    } else {
        count_falses(s.drop_last()) + (if s.last() {
            0int
        } else {
            1int
        })
    }
}

proof fn lemma_count_falses_update(s: Seq<bool>, i: int)
    requires
        0 <= i < s.len(),
        !s[i],
    ensures
        count_falses(s.update(i, true)) == count_falses(s) - 1,
    decreases s.len(),
{
    if i == s.len() - 1 {
        assert(s.update(i, true).drop_last() =~= s.drop_last());
    } else {
        assert(s.update(i, true).drop_last() =~= s.drop_last().update(i, true));
        lemma_count_falses_update(s.drop_last(), i);
    }
}

proof fn lemma_count_falses_nonneg(s: Seq<bool>)
    ensures
        count_falses(s) >= 0,
    decreases s.len(),
{
    if s.len() > 0 {
        lemma_count_falses_nonneg(s.drop_last());
    }
}

/// The first position of `x` in `order`.
pub open spec fn first_at(order: Seq<Seq<u8>>, x: Seq<u8>) -> int
    decreases order.len(),
{
    if order.len() == 0 {
        0
    } else if order[0] == x {
        0
    } else {
        1 + first_at(order.drop_first(), x)
    }
}

proof fn lemma_first_at(order: Seq<Seq<u8>>, x: Seq<u8>)
    requires
        order.contains(x),
    ensures
        0 <= first_at(order, x) < order.len(),
        order[first_at(order, x)] == x,
        forall|q: int| 0 <= q < order.len() && order[q] == x ==> first_at(order, x) <= q,
    decreases order.len(),
{
    if order.len() > 0 && order[0] != x {
        let tail = order.drop_first();
        assert(tail.contains(x)) by {
            let q = choose|q: int| 0 <= q < order.len() && order[q] == x;
            assert(tail[q - 1] == x);
        }
        lemma_first_at(tail, x);
        assert(order[1 + first_at(tail, x)] == tail[first_at(tail, x)]);
        assert forall|q: int| 0 <= q < order.len() && order[q] == x implies first_at(order, x)
            <= q by {
            assert(tail[q - 1] == x);
        }
    }
}

/// Every dependency of a listed directive exists, sits in the order, and
/// ranks strictly below the directive's own first occurrence.
proof fn lemma_topo_dep_rank(m: Map<Seq<u8>, BlockV>, order: Seq<Seq<u8>>, x: Seq<u8>, dd: int)
    requires
        topo_order(m, order),
        order.contains(x),
        0 <= dd < m[x].deps.len(),
    ensures
        order.contains(m[x].deps[dd]),
        m.contains_key(m[x].deps[dd]),
        first_at(order, m[x].deps[dd]) < first_at(order, x),
{
    lemma_first_at(order, x);
    let p = first_at(order, x);
    assert(order.take(p).contains(m[order[p]].deps[dd]));
    let d = m[x].deps[dd];
    let q = choose|q: int| 0 <= q < p && order.take(p)[q] == d;
    assert(order[q] == d);
    assert(order.contains(d));
    assert(m.contains_key(order[q]));
    lemma_first_at(order, d);
}

/// Whether walk entry `g` is in progress: visited but not yet finished (it
/// lies on the current depth-first path).
pub open spec fn in_progress(visited: Seq<bool>, finished: Seq<bool>, g: int) -> bool {
    0 <= g < visited.len() && g < finished.len() && visited[g] && !finished[g]
}

/// Every in-progress entry ranks strictly above `bound` in `order`. Along a
/// depth-first path ranks strictly decrease, so a directive that sits in a
/// topological order can never be revisited while still in progress.
pub open spec fn progress_above(
    blocks: Blocks,
    visited: Seq<bool>,
    finished: Seq<bool>,
    order: Seq<Seq<u8>>,
    bound: int,
) -> bool {
    forall|g: int|
        in_progress(visited, finished, g) ==> order.contains(#[trigger] blocks.key_at(g))
            && first_at(order, blocks.key_at(g)) > bound
}

/// `n` lies on a dependency cycle: some nonempty chain of existing
/// directives starts at `n`, follows recorded dependencies, and returns to
/// `n`.
pub open spec fn on_cycle(m: Map<Seq<u8>, BlockV>, n: Seq<u8>) -> bool {
    exists|c: Seq<Seq<u8>>|
        {
            &&& c.len() > 0
            &&& c[0] == n
            &&& (forall|t: int| 0 <= t < c.len() ==> m.contains_key(#[trigger] c[t]))
            &&& (forall|t: int|
                0 <= t < c.len() - 1 ==> m[#[trigger] c[t]].deps.contains(c[t + 1]))
            &&& m[c.last()].deps.contains(c[0])
        }
}

/// The invariant of the depth-first walk: flags match the mapping's entry
/// list, finished directives are visited and listed in `order`, and `order`
/// is a topological order of existing directives.
pub open spec fn walk_ok(
    blocks: Blocks,
    visited: Seq<bool>,
    finished: Seq<bool>,
    order: Seq<Seq<u8>>,
) -> bool {
    &&& visited.len() == blocks.entry_count()
    &&& finished.len() == blocks.entry_count()
    &&& (forall|k: int| 0 <= k < finished.len() && finished[k] ==> visited[k])
    &&& (forall|k: int|
        0 <= k < finished.len() && finished[k] ==> order.contains(#[trigger] blocks.key_at(k)))
    &&& topo_order(blocks@, order)
}

/// Depth-first resolution of the directive at entry index `i`: marks it
/// visited, resolves each of its dependencies, then marks it finished and
/// appends it to the order. Revisiting a directive that is not yet finished
/// is a cycle.
fn resolve_impl(
    blocks: &Blocks,
    i: usize,
    visited: &mut Vec<bool>,
    finished: &mut Vec<bool>,
    order: &mut Vec<Vec<u8>>,
    path: Ghost<Seq<int>>,
) -> (r: Result<(), ResolveError>)
    requires
        i < blocks.entry_count(),
        blocks@.contains_key(blocks.key_at(i as int)),
        blocks@[blocks.key_at(i as int)] == blocks.val_view_at(i as int),
        walk_ok(*blocks, old(visited)@, old(finished)@, names_of(old(order)@)),
        // the ghost path lists exactly the in-progress entries, outermost
        // first, joined by dependency edges, with a pending edge onto `i`
        forall|t: int|
            0 <= t < path@.len() ==> in_progress(old(visited)@, old(finished)@, #[trigger] path@[t])
                && blocks@.contains_key(blocks.key_at(path@[t])),
        forall|g: int| in_progress(old(visited)@, old(finished)@, g) ==> path@.contains(g),
        forall|t: int|
            0 <= t < path@.len() - 1 ==> blocks@[blocks.key_at(#[trigger] path@[t])].deps.contains(
                blocks.key_at(path@[t + 1]),
            ),
        path@.len() > 0 ==> blocks@[blocks.key_at(path@.last())].deps.contains(
            blocks.key_at(i as int),
        ),
    ensures
        final(visited)@.len() == old(visited)@.len(),
        final(finished)@.len() == old(finished)@.len(),
        forall|k: int|
            0 <= k < old(visited)@.len() && old(visited)@[k] ==> final(visited)@[k],
        forall|k: int|
            0 <= k < old(finished)@.len() && old(finished)@[k] ==> final(finished)@[k],
        count_falses(final(visited)@) <= count_falses(old(visited)@),
        walk_ok(
            *blocks,
            final(visited)@,
            final(finished)@,
            names_of(final(order)@),
        ),
        names_of(old(order)@).len() <= names_of(final(order)@).len(),
        forall|q: int|
            0 <= q < names_of(old(order)@).len() ==> names_of(final(order)@)[q] == #[trigger] names_of(
                old(order)@,
            )[q],
        r is Ok ==> final(finished)@[i as int],
        r is Ok ==> (forall|g: int|
            in_progress(final(visited)@, final(finished)@, g) == in_progress(
                old(visited)@,
                old(finished)@,
                g,
            )),
        forall|ord: Seq<Seq<u8>>|
            (topo_order(blocks@, ord) && ord.contains(blocks.key_at(i as int)) && progress_above(
                *blocks,
                old(visited)@,
                old(finished)@,
                ord,
                first_at(ord, blocks.key_at(i as int)),
            )) ==> r is Ok,
        r matches Err(e) ==> (e@ matches ResolveErrV::NotFound(n) ==> !blocks@.contains_key(n)
            && (exists|x: Seq<u8>|
                blocks@.contains_key(x) && #[trigger] blocks@[x].deps.contains(n))),
        r matches Err(e) ==> (e@ matches ResolveErrV::Circular(n) ==> blocks@.contains_key(n)
            && on_cycle(blocks@, n)),
    decreases count_falses(old(visited)@),
{
    proof {
        lemma_count_falses_nonneg(visited@);
    }
    if visited[i] {
        if !finished[i] {
            proof {
                blocks.lemma_keys_in_dom(i as int);
                // `i` is in progress, so it sits on the ghost path; the path
                // from that point, followed by the pending edge back onto
                // `i`, is a dependency cycle through this directive
                assert(in_progress(old(visited)@, old(finished)@, i as int));
                assert(path@.contains(i as int));
                let t0 = choose|t0: int| 0 <= t0 < path@.len() && path@[t0] == i as int;
                let c = Seq::new(
                    (path@.len() - t0) as nat,
                    |q: int|
                        if 0 <= q < path@.len() - t0 {
                            blocks.key_at(path@[t0 + q])
                        } else {
                            blocks.key_at(i as int)
                        },
                );
                assert(c[0] == blocks.key_at(i as int));
                assert(c.last() == blocks.key_at(path@.last()));
                assert forall|t: int| 0 <= t < c.len() implies blocks@.contains_key(
                    #[trigger] c[t],
                ) by {
                    assert(in_progress(old(visited)@, old(finished)@, path@[t0 + t]));
                }
                assert forall|t: int|
                    0 <= t < c.len() - 1 implies blocks@[#[trigger] c[t]].deps.contains(
                    c[t + 1],
                ) by {
                    assert(blocks@[blocks.key_at(path@[t0 + t])].deps.contains(
                        blocks.key_at(path@[t0 + t + 1]),
                    ));
                }
                assert(blocks@[c.last()].deps.contains(c[0]));
                assert(on_cycle(blocks@, blocks.key_at(i as int)));
                // a revisit while in progress contradicts any topological
                // order: the entry would rank strictly above itself
                assert forall|ord: Seq<Seq<u8>>|
                    !(topo_order(blocks@, ord) && ord.contains(blocks.key_at(i as int))
                        && progress_above(
                        *blocks,
                        old(visited)@,
                        old(finished)@,
                        ord,
                        first_at(ord, blocks.key_at(i as int)),
                    )) by {
                    if topo_order(blocks@, ord) && ord.contains(blocks.key_at(i as int))
                        && progress_above(
                        *blocks,
                        old(visited)@,
                        old(finished)@,
                        ord,
                        first_at(ord, blocks.key_at(i as int)),
                    ) {
                        assert(in_progress(old(visited)@, old(finished)@, i as int));
                    }
                }
            }
            return Err(ResolveError::Circular(bytes_clone(blocks.key_vec_at(i))));
        }
        return Ok(());
    }
    proof {
        lemma_count_falses_update(visited@, i as int);
    }
    visited.set(i, true);
    let b: &Block = blocks.val_at(i);
    let ghost bv = blocks.val_view_at(i as int);
    let mut di: usize = 0;
    while di < b.deps.len()
        invariant
            i < blocks.entry_count(),
            blocks@.contains_key(blocks.key_at(i as int)),
            blocks@[blocks.key_at(i as int)] == blocks.val_view_at(i as int),
            bv == blocks.val_view_at(i as int),
            b@ == bv,
            di <= b.deps.len(),
            visited@.len() == old(visited)@.len(),
            finished@.len() == old(finished)@.len(),
            forall|k: int|
                0 <= k < old(visited)@.len() && old(visited)@[k] ==> visited@[k],
            forall|k: int|
                0 <= k < old(finished)@.len() && old(finished)@[k] ==> finished@[k],
            count_falses(visited@) <= count_falses(old(visited)@) - 1,
            walk_ok(*blocks, visited@, finished@, names_of(order@)),
            visited@[i as int],
            !old(visited)@[i as int],
            !old(finished)@[i as int],
            forall|t: int|
                0 <= t < path@.len() ==> in_progress(
                    old(visited)@,
                    old(finished)@,
                    #[trigger] path@[t],
                ) && blocks@.contains_key(blocks.key_at(path@[t])),
            forall|g: int| in_progress(old(visited)@, old(finished)@, g) ==> path@.contains(g),
            forall|t: int|
                0 <= t < path@.len() - 1 ==> blocks@[blocks.key_at(
                    #[trigger] path@[t],
                )].deps.contains(blocks.key_at(path@[t + 1])),
            path@.len() > 0 ==> blocks@[blocks.key_at(path@.last())].deps.contains(
                blocks.key_at(i as int),
            ),
            forall|g: int|
                in_progress(visited@, finished@, g) == (in_progress(
                    old(visited)@,
                    old(finished)@,
                    g,
                ) || g == i as int),
            names_of(old(order)@).len() <= names_of(order@).len(),
            forall|q: int|
                0 <= q < names_of(old(order)@).len() ==> names_of(order@)[q] == #[trigger] names_of(
                    old(order)@,
                )[q],
            forall|d: int|
                0 <= d < di ==> names_of(order@).contains(
                    #[trigger] bv.deps[d],
                ),
        decreases b.deps.len() - di,
    {
        let dep = &b.deps[di];
        match blocks.index_of(dep.as_slice()) {
            None => {
                proof {
                    // a missing dependency contradicts any topological order
                    // that contains this directive
                    assert forall|ord: Seq<Seq<u8>>|
                        !(topo_order(blocks@, ord) && ord.contains(blocks.key_at(i as int))
                            && progress_above(
                            *blocks,
                            old(visited)@,
                            old(finished)@,
                            ord,
                            first_at(ord, blocks.key_at(i as int)),
                        )) by {
                        if topo_order(blocks@, ord) && ord.contains(blocks.key_at(i as int)) {
                            lemma_topo_dep_rank(
                                blocks@,
                                ord,
                                blocks.key_at(i as int),
                                di as int,
                            );
                        }
                    }
                    // the missing name is a recorded dependency of this
                    // (existing) directive
                    assert(blocks@[blocks.key_at(i as int)].deps[di as int] == dep@);
                    assert(blocks@[blocks.key_at(i as int)].deps.contains(dep@));
                    assert(exists|x: Seq<u8>|
                        blocks@.contains_key(x) && #[trigger] blocks@[x].deps.contains(dep@));
                }
                return Err(ResolveError::NotFound(bytes_clone(dep)));
            },
            Some(j) => {
                let ghost pre_order = names_of(order@);
                let ghost pv = visited@;
                let ghost pf = finished@;
                proof {
                    lemma_count_falses_nonneg(visited@);
                }
                proof {
                    // the callee's path: the in-progress chain now ends at
                    // `i`, whose recorded dependency is the callee
                    assert(blocks@[blocks.key_at(i as int)].deps[di as int] == dep@);
                    assert(blocks@[blocks.key_at(i as int)].deps.contains(
                        blocks.key_at(j as int),
                    ));
                    assert forall|g: int|
                        in_progress(visited@, finished@, g) implies path@.push(
                        i as int,
                    ).contains(g) by {
                        if g == i as int {
                            assert(path@.push(i as int)[path@.len() as int] == i as int);
                        } else {
                            assert(in_progress(old(visited)@, old(finished)@, g));
                            assert(path@.contains(g));
                            let t = choose|t: int|
                                0 <= t < path@.len() && path@[t] == g;
                            assert(path@.push(i as int)[t] == g);
                        }
                    }
                }
                match resolve_impl(
                    blocks,
                    j,
                    visited,
                    finished,
                    order,
                    Ghost(path@.push(i as int)),
                ) {
                    Ok(_) => {
                        proof {
                            let post_order = names_of(order@);
                            lemma_prefix_contains(pre_order, post_order);
                            assert(post_order.contains(blocks.key_at(j as int)));
                            assert(blocks.key_at(j as int) == bv.deps[di as int]);
                        }
                    },
                    Err(e) => {
                        proof {
                            // under any witness order the recursive walk on a
                            // dependency must succeed: ranks strictly
                            // decrease along the path
                            assert forall|ord: Seq<Seq<u8>>|
                                !(topo_order(blocks@, ord) && ord.contains(
                                    blocks.key_at(i as int),
                                ) && progress_above(
                                    *blocks,
                                    old(visited)@,
                                    old(finished)@,
                                    ord,
                                    first_at(ord, blocks.key_at(i as int)),
                                )) by {
                                if topo_order(blocks@, ord) && ord.contains(
                                    blocks.key_at(i as int),
                                ) && progress_above(
                                    *blocks,
                                    old(visited)@,
                                    old(finished)@,
                                    ord,
                                    first_at(ord, blocks.key_at(i as int)),
                                ) {
                                    lemma_topo_dep_rank(
                                        blocks@,
                                        ord,
                                        blocks.key_at(i as int),
                                        di as int,
                                    );
                                    assert(blocks.key_at(j as int) == bv.deps[di as int]);
                                    assert(ord.contains(blocks.key_at(j as int)));
                                    assert forall|g: int|
                                        in_progress(pv, pf, g) implies ord.contains(
                                        #[trigger] blocks.key_at(g),
                                    ) && first_at(ord, blocks.key_at(g)) > first_at(
                                        ord,
                                        blocks.key_at(j as int),
                                    ) by {
                                        if g == i as int {
                                        } else {
                                            assert(in_progress(
                                                old(visited)@,
                                                old(finished)@,
                                                g,
                                            ));
                                        }
                                    }
                                    assert(progress_above(
                                        *blocks,
                                        pv,
                                        pf,
                                        ord,
                                        first_at(ord, blocks.key_at(j as int)),
                                    ));
                                }
                            }
                        }
                        return Err(e);
                    },
                }
            },
        }
        di = di + 1;
    }
    finished.set(i, true);
    let ghost pre_order = names_of(order@);
    order.push(bytes_clone(blocks.key_vec_at(i)));
    proof {
        let m = blocks@;
        let post_order = names_of(order@);
        assert(post_order =~= pre_order.push(blocks.key_at(i as int)));
        lemma_prefix_contains(pre_order, post_order);
        assert(post_order[post_order.len() - 1] == blocks.key_at(i as int));
        assert(post_order.contains(blocks.key_at(i as int)));
        assert forall|k: int|
            0 <= k < finished@.len() && finished@[k] implies post_order.contains(
            #[trigger] blocks.key_at(k),
        ) by {
            if k != i {
                assert(pre_order.contains(blocks.key_at(k)));
            }
        }
        assert(m[blocks.key_at(i as int)].deps == bv.deps);
        lemma_topo_push(m, pre_order, blocks.key_at(i as int));
    }
    Ok(())
}

/// Check, before any execution, that every directive reachable from `entry`
/// through `call` dependencies exists and that no dependency cycle is
/// reachable. It succeeds exactly when the block mapping admits a
/// topological order containing the entry (`resolvable`); a not-found error
/// names an absent directive that the entry or some existing directive
/// depends on, and a circular error names a directive that lies on a
/// dependency cycle. Nothing else is changed or produced.
pub fn resolve_dependencies(blocks: &Blocks, entry: &[u8]) -> (r: Result<(), ResolveError>)
    ensures
        r is Ok <==> resolvable(blocks@, entry@),
        r is Ok ==> blocks@.contains_key(entry@),
        r matches Err(e) ==> (e@ matches ResolveErrV::NotFound(n) ==> !blocks@.contains_key(n) && (
        n == entry@ || exists|x: Seq<u8>|
            blocks@.contains_key(x) && #[trigger] blocks@[x].deps.contains(n))),
        r matches Err(e) ==> (e@ matches ResolveErrV::Circular(n) ==> blocks@.contains_key(n)
            && on_cycle(blocks@, n)),
    decreases blocks.entry_count(),
{
    let i = match blocks.index_of(entry) {
        None => {
            proof {
                // without the entry there is no topological order holding it
                if resolvable(blocks@, entry@) {
                    let ord = choose|ord: Seq<Seq<u8>>|
                        ord.contains(entry@) && topo_order(blocks@, ord);
                    let q = choose|q: int| 0 <= q < ord.len() && ord[q] == entry@;
                    assert(blocks@.contains_key(ord[q]));
                }
            }
            return Err(ResolveError::NotFound(vstd::slice::slice_to_vec(entry)));
        },
        Some(i) => i,
    };
    let n = blocks.len();
    let mut visited: Vec<bool> = Vec::new();
    let mut finished: Vec<bool> = Vec::new();
    let mut k: usize = 0;
    while k < n
        invariant
            k <= n,
            visited@.len() == k,
            finished@.len() == k,
            forall|q: int| 0 <= q < k ==> !visited@[q] && !finished@[q],
        decreases n - k,
    {
        visited.push(false);
        finished.push(false);
        k = k + 1;
    }
    let mut order: Vec<Vec<u8>> = Vec::new();
    proof {
        assert(names_of(order@) =~= Seq::<Seq<u8>>::empty());
    }
    let ghost v0 = visited@;
    let ghost f0 = finished@;
    match resolve_impl(blocks, i, &mut visited, &mut finished, &mut order, Ghost(Seq::empty())) {
        Ok(_) => {
            proof {
                let ov = names_of(order@);
                assert(ov.contains(blocks.key_at(i as int)));
                assert(ov.contains(entry@) && topo_order(blocks@, ov));
            }
            Ok(())
        },
        Err(e) => {
            proof {
                // the walk fails only when no topological order exists:
                // with no entry in progress at the start, any witness order
                // would have forced success
                if resolvable(blocks@, entry@) {
                    let ord = choose|ord: Seq<Seq<u8>>|
                        ord.contains(entry@) && topo_order(blocks@, ord);
                    assert(progress_above(
                        *blocks,
                        v0,
                        f0,
                        ord,
                        first_at(ord, blocks.key_at(i as int)),
                    ));
                    assert(topo_order(blocks@, ord) && ord.contains(blocks.key_at(i as int))
                        && progress_above(
                        *blocks,
                        v0,
                        f0,
                        ord,
                        first_at(ord, blocks.key_at(i as int)),
                    ));
                }
            }
            Err(e)
        },
    }
}

} // verus!
