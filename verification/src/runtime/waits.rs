//! Walks along who waits for whom.
//!
//! A blocked runtime waits for one other runtime, so what follows from it is a
//! single walk. `links` maps each blocked runtime to the one it waits for.

use crate::runtime::RuntimeId;
use vstd::prelude::*;

verus! {

/// Where a walk of `n` links from `from` ends, if there are that many.
pub open spec fn walk(
    links: Map<RuntimeId, RuntimeId>,
    from: RuntimeId,
    n: nat,
) -> Option<RuntimeId>
    decreases n,
{
    if n == 0 {
        Some(from)
    } else if links.dom().contains(from) {
        walk(links, links[from], (n - 1) as nat)
    } else {
        None
    }
}

/// True if `from` is `to` or waits for it, directly or through others.
pub open spec fn reaches(
    links: Map<RuntimeId, RuntimeId>,
    from: RuntimeId,
    to: RuntimeId,
) -> bool {
    exists|n: nat| #[trigger] walk(links, from, n) == Some(to)
}

/// True if no runtime waits for itself, directly or through others.
pub open spec fn acyclic(links: Map<RuntimeId, RuntimeId>) -> bool {
    forall|id: RuntimeId, n: nat| n > 0 ==> #[trigger] walk(links, id, n) != Some(id)
}

/// A walk goes on from where its first part ends.
pub proof fn lemma_walk_compose(
    links: Map<RuntimeId, RuntimeId>,
    a: RuntimeId,
    n: nat,
    b: RuntimeId,
    m: nat,
)
    requires
        walk(links, a, n) == Some(b),
    ensures
        walk(links, a, n + m) == walk(links, b, m),
    decreases n,
{
    if n > 0 {
        lemma_walk_compose(links, links[a], (n - 1) as nat, b, m);
    }
}

/// One more link at the end of a walk.
pub proof fn lemma_walk_step(
    links: Map<RuntimeId, RuntimeId>,
    a: RuntimeId,
    n: nat,
    b: RuntimeId,
)
    requires
        walk(links, a, n) == Some(b),
    ensures
        walk(links, a, n + 1) == (if links.dom().contains(b) {
            Some(links[b])
        } else {
            None
        }),
{
    lemma_walk_compose(links, a, n, b, 1);
    reveal_with_fuel(walk, 2);
}

/// The first part of a walk is a walk.
pub proof fn lemma_walk_prefix(
    links: Map<RuntimeId, RuntimeId>,
    from: RuntimeId,
    n: nat,
    part: nat,
)
    requires
        walk(links, from, n) is Some,
        part <= n,
    ensures
        walk(links, from, part) is Some,
    decreases part,
{
    if part > 0 {
        lemma_walk_prefix(links, links[from], (n - 1) as nat, (part - 1) as nat);
    }
}

/// A runtime that reaches another one over at least one link reaches it from
/// the next runtime on its walk.
pub proof fn lemma_reaches_next(
    links: Map<RuntimeId, RuntimeId>,
    from: RuntimeId,
    to: RuntimeId,
)
    requires
        from != to,
        reaches(links, from, to),
    ensures
        links.dom().contains(from),
        reaches(links, links[from], to),
{
    let n = choose|n: nat| #[trigger] walk(links, from, n) == Some(to);
    assert(n > 0);
    assert(walk(links, links[from], (n - 1) as nat) == Some(to));
}

/// Fewer links make no new walks.
pub proof fn lemma_walk_in_larger(
    small: Map<RuntimeId, RuntimeId>,
    large: Map<RuntimeId, RuntimeId>,
    from: RuntimeId,
    n: nat,
)
    requires
        small.submap_of(large),
        walk(small, from, n) is Some,
    ensures
        walk(large, from, n) == walk(small, from, n),
    decreases n,
{
    if n > 0 {
        assert(large.dom().contains(from) && large[from] == small[from]);
        lemma_walk_in_larger(small, large, small[from], (n - 1) as nat);
    }
}

/// Without some of its links, an acyclic graph is still acyclic.
pub proof fn lemma_acyclic_smaller(
    small: Map<RuntimeId, RuntimeId>,
    large: Map<RuntimeId, RuntimeId>,
)
    requires
        small.submap_of(large),
        acyclic(large),
    ensures
        acyclic(small),
{
    assert forall|id: RuntimeId, n: nat| n > 0 implies #[trigger] walk(small, id, n) != Some(
        id,
    ) by {
        if walk(small, id, n) == Some(id) {
            lemma_walk_in_larger(small, large, id, n);
        }
    }
}

/// A walk in a graph with one more link either does without that link or
/// passes the place where it starts.
proof fn lemma_walk_with_link(
    links: Map<RuntimeId, RuntimeId>,
    from: RuntimeId,
    to: RuntimeId,
    start: RuntimeId,
    n: nat,
)
    requires
        !links.dom().contains(from),
        walk(links.insert(from, to), start, n) is Some,
    ensures
        walk(links, start, n) == walk(links.insert(from, to), start, n) || reaches(
            links,
            start,
            from,
        ),
    decreases n,
{
    if start == from {
        assert(walk(links, start, 0) == Some(from));
    } else if n > 0 {
        let next = links[start];
        lemma_walk_with_link(links, from, to, next, (n - 1) as nat);
        if reaches(links, next, from) {
            let k = choose|k: nat| #[trigger] walk(links, next, k) == Some(from);
            assert(walk(links, start, k + 1) == Some(from));
        }
    }
}

/// A link from a runtime that waits for nobody closes no cycle, unless its end
/// already reaches its start.
pub proof fn lemma_link_keeps_acyclic(
    links: Map<RuntimeId, RuntimeId>,
    from: RuntimeId,
    to: RuntimeId,
)
    requires
        acyclic(links),
        !links.dom().contains(from),
        !reaches(links, to, from),
    ensures
        acyclic(links.insert(from, to)),
{
    let more = links.insert(from, to);
    assert forall|id: RuntimeId, n: nat| n > 0 implies #[trigger] walk(more, id, n) != Some(
        id,
    ) by {
        if walk(more, id, n) == Some(id) {
            lemma_walk_with_link(links, from, to, id, n);
            if walk(links, id, n) != Some(id) {
                let k = choose|k: nat| #[trigger] walk(links, id, k) == Some(from);
                assert(links.submap_of(more));
                lemma_walk_in_larger(links, more, id, k);
                // Round the cycle from `id` to `from` a second time.
                lemma_walk_compose(more, id, n, id, k);
                assert(walk(more, id, n + k) == Some(from));
                lemma_walk_step(more, id, k, from);
                assert(walk(more, id, k + 1) == Some(to));
                lemma_walk_compose(more, id, k + 1, to, (n - 1) as nat);
                assert(walk(more, to, (n - 1) as nat) == Some(from));
                lemma_walk_with_link(links, from, to, to, (n - 1) as nat);
                assert(reaches(links, to, from));
            }
        }
    }
}

/// A walk that never comes back to `gone` does without its link.
proof fn lemma_walk_without(
    links: Map<RuntimeId, RuntimeId>,
    gone: RuntimeId,
    from: RuntimeId,
    n: nat,
)
    requires
        walk(links, from, n) is Some,
        !reaches(links, from, gone),
    ensures
        walk(links.remove(gone), from, n) == walk(links, from, n),
    decreases n,
{
    assert(walk(links, from, 0) == Some(from));
    if n > 0 {
        assert forall|k: nat| #[trigger] walk(links, links[from], k) != Some(gone) by {
            assert(walk(links, from, k + 1) == walk(links, links[from], k));
        }
        lemma_walk_without(links, gone, links[from], (n - 1) as nat);
    }
}

/// In an acyclic graph no walk is longer than there are links.
pub proof fn lemma_walk_bounded(links: Map<RuntimeId, RuntimeId>, from: RuntimeId, n: nat)
    requires
        acyclic(links),
        links.dom().finite(),
        walk(links, from, n) is Some,
    ensures
        n <= links.dom().len(),
    decreases n,
{
    if n > 0 {
        let fewer = links.remove(from);
        assert forall|k: nat| #[trigger] walk(links, links[from], k) != Some(from) by {
            assert(walk(links, from, k + 1) == walk(links, links[from], k));
        }
        lemma_walk_without(links, from, links[from], (n - 1) as nat);
        assert(fewer.submap_of(links));
        lemma_acyclic_smaller(fewer, links);
        lemma_walk_bounded(fewer, links[from], (n - 1) as nat);
        assert(fewer.dom() =~= links.dom().remove(from));
    }
}

} // verus!
