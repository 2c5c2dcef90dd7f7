//! Which sub-problems a run of a solver reaches, and so stores.
use vstd::prelude::*;

verus! {

/// `y` is reached from `x` within `fuel` steps: it is a sub-problem of `x`
/// (for some list of sub-problems `edges` allows `x`), or is reached from such
/// a sub-problem that `avoid` does not hold. A run does not look into the
/// sub-problems of an input whose answer is already remembered.
pub open spec fn reaches<I>(
    edges: spec_fn(I, Seq<I>) -> bool,
    avoid: Set<I>,
    x: I,
    y: I,
    fuel: nat,
) -> bool
    decreases fuel, 1nat,
{
    if fuel == 0 {
        false
    } else {
        exists|d: Seq<I>| #[trigger] edges(x, d) && list_reaches(edges, avoid, d, y, (fuel - 1) as nat)
    }
}

/// `y` is an item of `d`, or is reached within `fuel` steps from an item of
/// `d` that `avoid` does not hold.
pub open spec fn list_reaches<I>(
    edges: spec_fn(I, Seq<I>) -> bool,
    avoid: Set<I>,
    d: Seq<I>,
    y: I,
    fuel: nat,
) -> bool
    decreases fuel + 1, 0nat,
{
    exists|k: int| #![trigger d[k]]
        0 <= k < d.len() && (d[k] == y || (!avoid.contains(d[k]) && reaches(
            edges,
            avoid,
            d[k],
            y,
            fuel,
        )))
}

/// Everything reached from `x` (see `reaches`).
pub open spec fn reached<I>(edges: spec_fn(I, Seq<I>) -> bool, avoid: Set<I>, x: I) -> Set<I> {
    Set::new(|y: I| exists|fuel: nat| #[trigger] reaches(edges, avoid, x, y, fuel))
}

/// `c` holds everything reached (avoiding `base`) from each of its inputs
/// that `base` does not hold.
pub open spec fn closed_under<I>(edges: spec_fn(I, Seq<I>) -> bool, base: Set<I>, c: Set<I>) -> bool {
    forall|z: I, y: I, fuel: nat|
        c.contains(z) && !base.contains(z) && #[trigger] reaches(edges, base, z, y, fuel) ==> c.contains(
            y,
        )
}

/// Each input has at most one list of sub-problems.
pub open spec fn edges_deterministic<I>(edges: spec_fn(I, Seq<I>) -> bool) -> bool {
    forall|x: I, d1: Seq<I>, d2: Seq<I>| #[trigger] edges(x, d1) && #[trigger] edges(x, d2) ==> d1 == d2
}

/// More steps reach at least as much.
pub proof fn lemma_reaches_mono<I>(
    edges: spec_fn(I, Seq<I>) -> bool,
    avoid: Set<I>,
    x: I,
    y: I,
    f: nat,
    g: nat,
)
    requires
        reaches(edges, avoid, x, y, f),
        f <= g,
    ensures
        reaches(edges, avoid, x, y, g),
    decreases f,
{
    let d = choose|d: Seq<I>| #[trigger] edges(x, d) && list_reaches(edges, avoid, d, y, (f - 1) as nat);
    let k = choose|k: int| #![trigger d[k]]
        0 <= k < d.len() && (d[k] == y || (!avoid.contains(d[k]) && reaches(
            edges,
            avoid,
            d[k],
            y,
            (f - 1) as nat,
        )));
    if d[k] != y {
        lemma_reaches_mono(edges, avoid, d[k], y, (f - 1) as nat, (g - 1) as nat);
    }
    assert(list_reaches(edges, avoid, d, y, (g - 1) as nat));
}

/// Reaching is transitive through an input that `avoid` does not hold.
pub proof fn lemma_reaches_trans<I>(
    edges: spec_fn(I, Seq<I>) -> bool,
    avoid: Set<I>,
    x: I,
    z: I,
    y: I,
    f1: nat,
    f2: nat,
)
    requires
        reaches(edges, avoid, x, z, f1),
        !avoid.contains(z),
        reaches(edges, avoid, z, y, f2),
    ensures
        reaches(edges, avoid, x, y, f1 + f2),
    decreases f1,
{
    let d = choose|d: Seq<I>| #[trigger] edges(x, d) && list_reaches(edges, avoid, d, z, (f1 - 1) as nat);
    let k = choose|k: int| #![trigger d[k]]
        0 <= k < d.len() && (d[k] == z || (!avoid.contains(d[k]) && reaches(
            edges,
            avoid,
            d[k],
            z,
            (f1 - 1) as nat,
        )));
    if d[k] == z {
        lemma_reaches_mono(edges, avoid, z, y, f2, (f1 + f2 - 1) as nat);
    } else {
        lemma_reaches_trans(edges, avoid, d[k], z, y, (f1 - 1) as nat, f2);
    }
    assert(list_reaches(edges, avoid, d, y, (f1 + f2 - 1) as nat));
}

/// Avoiding more reaches no more.
pub proof fn lemma_reaches_avoid_more<I>(
    edges: spec_fn(I, Seq<I>) -> bool,
    less: Set<I>,
    more: Set<I>,
    x: I,
    y: I,
    f: nat,
)
    requires
        less.subset_of(more),
        reaches(edges, more, x, y, f),
    ensures
        reaches(edges, less, x, y, f),
    decreases f,
{
    let d = choose|d: Seq<I>| #[trigger] edges(x, d) && list_reaches(edges, more, d, y, (f - 1) as nat);
    let k = choose|k: int| #![trigger d[k]]
        0 <= k < d.len() && (d[k] == y || (!more.contains(d[k]) && reaches(
            edges,
            more,
            d[k],
            y,
            (f - 1) as nat,
        )));
    if d[k] != y {
        lemma_reaches_avoid_more(edges, less, more, d[k], y, (f - 1) as nat);
    }
    assert(list_reaches(edges, less, d, y, (f - 1) as nat));
}

/// What is reached avoiding `base` is, outside a set `c` that holds `base`
/// and is closed under reaching, reached avoiding `c` too.
pub proof fn lemma_reaches_split<I>(
    edges: spec_fn(I, Seq<I>) -> bool,
    base: Set<I>,
    c: Set<I>,
    x: I,
    y: I,
    f: nat,
)
    requires
        base.subset_of(c),
        closed_under(edges, base, c),
        reaches(edges, base, x, y, f),
    ensures
        c.contains(y) || reaches(edges, c, x, y, f),
    decreases f,
{
    let d = choose|d: Seq<I>| #[trigger] edges(x, d) && list_reaches(edges, base, d, y, (f - 1) as nat);
    let k = choose|k: int| #![trigger d[k]]
        0 <= k < d.len() && (d[k] == y || (!base.contains(d[k]) && reaches(
            edges,
            base,
            d[k],
            y,
            (f - 1) as nat,
        )));
    if d[k] == y {
        assert(list_reaches(edges, c, d, y, (f - 1) as nat));
    } else if c.contains(d[k]) {
        assert(reaches(edges, base, d[k], y, (f - 1) as nat));
    } else {
        lemma_reaches_split(edges, base, c, d[k], y, (f - 1) as nat);
        if !c.contains(y) {
            assert(list_reaches(edges, c, d, y, (f - 1) as nat));
        }
    }
}

/// For deterministic sub-problem lists, what `x` reaches is what its list
/// `d` holds, and what each item of `d` outside `avoid` reaches.
pub proof fn lemma_reached_from_list<I>(
    edges: spec_fn(I, Seq<I>) -> bool,
    avoid: Set<I>,
    x: I,
    d: Seq<I>,
    y: I,
)
    requires
        edges_deterministic(edges),
        edges(x, d),
    ensures
        reached(edges, avoid, x).contains(y) <==> exists|k: int| #![trigger d[k]]
            0 <= k < d.len() && (d[k] == y || (!avoid.contains(d[k]) && reached(
                edges,
                avoid,
                d[k],
            ).contains(y))),
{
    if reached(edges, avoid, x).contains(y) {
        let f = choose|fuel: nat| #[trigger] reaches(edges, avoid, x, y, fuel);
        let d2 = choose|d2: Seq<I>| #[trigger] edges(x, d2) && list_reaches(edges, avoid, d2, y, (f - 1) as nat);
        assert(d2 == d);
        let k = choose|k: int| #![trigger d[k]]
            0 <= k < d.len() && (d[k] == y || (!avoid.contains(d[k]) && reaches(
                edges,
                avoid,
                d[k],
                y,
                (f - 1) as nat,
            )));
        if d[k] != y {
            assert(reached(edges, avoid, d[k]).contains(y));
        }
    }
    if exists|k: int| #![trigger d[k]]
        0 <= k < d.len() && (d[k] == y || (!avoid.contains(d[k]) && reached(
            edges,
            avoid,
            d[k],
        ).contains(y))) {
        let k = choose|k: int| #![trigger d[k]]
            0 <= k < d.len() && (d[k] == y || (!avoid.contains(d[k]) && reached(
                edges,
                avoid,
                d[k],
            ).contains(y)));
        if d[k] == y {
            assert(list_reaches(edges, avoid, d, y, 0));
            assert(reaches(edges, avoid, x, y, 1));
        } else {
            let f = choose|fuel: nat| #[trigger] reaches(edges, avoid, d[k], y, fuel);
            assert(list_reaches(edges, avoid, d, y, f));
            assert(reaches(edges, avoid, x, y, f + 1));
        }
    }
}

/// The first `n` items of `d`, and what each of them outside `avoid`
/// reaches: what a run that has gone through those items has stored.
pub open spec fn prefix_reached<I>(
    edges: spec_fn(I, Seq<I>) -> bool,
    avoid: Set<I>,
    d: Seq<I>,
    n: int,
) -> Set<I> {
    Set::new(
        |y: I|
            exists|j: int| #![trigger d[j]]
                0 <= j < n && (d[j] == y || (!avoid.contains(d[j]) && reached(
                    edges,
                    avoid,
                    d[j],
                ).contains(y))),
    )
}

/// An item already held adds nothing to what the items before it stored,
/// when what is held is closed under reaching.
pub proof fn lemma_prefix_held<I>(
    edges: spec_fn(I, Seq<I>) -> bool,
    base: Set<I>,
    c: Set<I>,
    d: Seq<I>,
    n: int,
)
    requires
        0 <= n < d.len(),
        closed_under(edges, base, c),
        c == base.union(prefix_reached(edges, base, d, n)),
        c.contains(d[n]),
    ensures
        c == base.union(prefix_reached(edges, base, d, n + 1)),
{
    assert forall|y: I| prefix_reached(edges, base, d, n + 1).contains(y) implies c.contains(y) by {
        let j = choose|j: int| #![trigger d[j]]
            0 <= j < n + 1 && (d[j] == y || (!base.contains(d[j]) && reached(
                edges,
                base,
                d[j],
            ).contains(y)));
        if j < n {
            assert(prefix_reached(edges, base, d, n).contains(y));
        } else if d[j] != y {
            let f = choose|f: nat| #[trigger] reaches(edges, base, d[n], y, f);
            assert(reaches(edges, base, d[n], y, f));
        }
    }
    assert forall|y: I| prefix_reached(edges, base, d, n).contains(y) implies prefix_reached(
        edges,
        base,
        d,
        n + 1,
    ).contains(y) by {
        let j = choose|j: int| #![trigger d[j]]
            0 <= j < n && (d[j] == y || (!base.contains(d[j]) && reached(
                edges,
                base,
                d[j],
            ).contains(y)));
        assert(0 <= j < n + 1);
    }
    assert(c =~= base.union(prefix_reached(edges, base, d, n + 1)));
}

/// An item not yet held, run from what is held (which holds `base` and is
/// closed under reaching), stores itself and what it reaches: together that
/// is what the items up to it reach from `base`, and it stays closed.
pub proof fn lemma_prefix_run<I>(
    edges: spec_fn(I, Seq<I>) -> bool,
    base: Set<I>,
    c: Set<I>,
    d: Seq<I>,
    n: int,
)
    requires
        0 <= n < d.len(),
        base.subset_of(c),
        closed_under(edges, base, c),
        c == base.union(prefix_reached(edges, base, d, n)),
        !c.contains(d[n]),
    ensures
        c.union(reached(edges, c, d[n])).insert(d[n]) == base.union(
            prefix_reached(edges, base, d, n + 1),
        ),
        closed_under(edges, base, c.union(reached(edges, c, d[n])).insert(d[n])),
{
    let x = d[n];
    let c2 = c.union(reached(edges, c, x)).insert(x);
    let goal = base.union(prefix_reached(edges, base, d, n + 1));
    assert forall|y: I| #[trigger] reached(edges, base, x).contains(y) implies c2.contains(y) by {
        let f = choose|f: nat| #[trigger] reaches(edges, base, x, y, f);
        lemma_reaches_split(edges, base, c, x, y, f);
    }
    assert forall|y: I| c2.contains(y) implies goal.contains(y) by {
        if c.contains(y) {
            if !base.contains(y) {
                let j = choose|j: int| #![trigger d[j]]
                    0 <= j < n && (d[j] == y || (!base.contains(d[j]) && reached(
                        edges,
                        base,
                        d[j],
                    ).contains(y)));
                assert(0 <= j < n + 1);
            }
        } else if y == x {
            assert(prefix_reached(edges, base, d, n + 1).contains(y));
        } else {
            let f = choose|f: nat| #[trigger] reaches(edges, c, x, y, f);
            lemma_reaches_avoid_more(edges, base, c, x, y, f);
            assert(reached(edges, base, x).contains(y));
            assert(prefix_reached(edges, base, d, n + 1).contains(y));
        }
    }
    assert forall|y: I| goal.contains(y) implies c2.contains(y) by {
        if !base.contains(y) {
            let j = choose|j: int| #![trigger d[j]]
                0 <= j < n + 1 && (d[j] == y || (!base.contains(d[j]) && reached(
                    edges,
                    base,
                    d[j],
                ).contains(y)));
            if j < n {
                assert(prefix_reached(edges, base, d, n).contains(y));
            }
        }
    }
    assert(c2 =~= goal);
    assert forall|z: I, y: I, fuel: nat|
        c2.contains(z) && !base.contains(z) && #[trigger] reaches(edges, base, z, y, fuel) implies c2.contains(
        y,
    ) by {
        if c.contains(z) {
        } else if z == x {
            assert(reached(edges, base, x).contains(y));
        } else {
            let f1 = choose|f: nat| #[trigger] reaches(edges, c, x, z, f);
            lemma_reaches_avoid_more(edges, base, c, x, z, f1);
            lemma_reaches_trans(edges, base, x, z, y, f1, fuel);
            assert(reached(edges, base, x).contains(y));
        }
    }
}

/// For deterministic sub-problem lists, the whole list of `x` and what it
/// reaches is what `x` reaches.
pub proof fn lemma_prefix_full<I>(
    edges: spec_fn(I, Seq<I>) -> bool,
    avoid: Set<I>,
    x: I,
    d: Seq<I>,
)
    requires
        edges_deterministic(edges),
        edges(x, d),
    ensures
        prefix_reached(edges, avoid, d, d.len() as int) == reached(edges, avoid, x),
{
    assert forall|y: I| #[trigger] reached(edges, avoid, x).contains(y) == prefix_reached(
        edges,
        avoid,
        d,
        d.len() as int,
    ).contains(y) by {
        lemma_reached_from_list(edges, avoid, x, d, y);
    }
    assert(prefix_reached(edges, avoid, d, d.len() as int) =~= reached(edges, avoid, x));
}

} // verus!
