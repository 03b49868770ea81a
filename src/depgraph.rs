//! The dependency graph between articles: article `x` depends on article `y`
//! when the origin point of `x`'s route requires `y`. Building it checks that
//! every requirement names a known article and that no article depends on
//! itself through any chain of requirements.
use vstd::prelude::*;
use crate::catalog::{Catalog, requirements_of};

verus! {

/// Article `x` directly requires article `y`.
pub open spec fn requires_article(c: &Catalog, x: int, y: int) -> bool {
    exists|k: int|
        0 <= k < requirements_of(c, x).len() && (#[trigger] requirements_of(c, x)[k]).article == y
}

/// Every requirement names an article of the catalog.
pub open spec fn references_known(c: &Catalog) -> bool {
    forall|x: int, k: int|
        0 <= x < c.articles@.len() && 0 <= k < requirements_of(c, x).len()
            ==> (#[trigger] requirements_of(c, x)[k]).article < c.articles@.len()
}

/// `path` is a cycle of requirements: each article requires the next one,
/// and the last requires the first.
pub open spec fn is_cycle(c: &Catalog, path: Seq<usize>) -> bool {
    &&& path.len() > 0
    &&& forall|i: int| 0 <= i < path.len() ==> #[trigger] path[i] < c.articles@.len()
    &&& forall|i: int|
        0 <= i < path.len() - 1 ==> requires_article(c, #[trigger] path[i] as int, path[i + 1] as int)
    &&& requires_article(c, path.last() as int, path[0] as int)
}

/// `pos` numbers the articles so that each comes after all it requires.
pub open spec fn valid_order(c: &Catalog, pos: Seq<usize>) -> bool {
    &&& pos.len() == c.articles@.len()
    &&& references_known(c)
    &&& forall|x: int, k: int|
        0 <= x < c.articles@.len() && 0 <= k < requirements_of(c, x).len()
            ==> pos[(#[trigger] requirements_of(c, x)[k]).article as int] < pos[x]
}

/// The requirement relation has no cycle.
pub open spec fn acyclic(c: &Catalog) -> bool {
    exists|pos: Seq<usize>| valid_order(c, pos)
}

/// Article `x` has all its requirements among the articles marked in `done`.
#[verifier::opaque]
pub open spec fn ready(c: &Catalog, done: Seq<bool>, x: int) -> bool {
    forall|k: int|
        0 <= k < requirements_of(c, x).len() ==> done[(#[trigger] requirements_of(
            c,
            x,
        )[k]).article as int]
}

/// Number of unmarked entries.
pub open spec fn pending(s: Seq<bool>) -> nat
    decreases s.len(),
{
    if s.len() == 0 {
        0
    } else {
        pending(s.drop_last()) + if s.last() {
            0nat
        } else {
            1nat
        }
    }
}

pub proof fn lemma_pending_mark(s: Seq<bool>, i: int)
    requires
        0 <= i < s.len(),
        !s[i],
    ensures
        pending(s.update(i, true)) + 1 == pending(s),
    decreases s.len(),
{
    if i == s.len() - 1 {
        assert(s.update(i, true).drop_last() == s.drop_last());
    } else {
        assert(s.update(i, true).drop_last() == s.drop_last().update(i, true));
        lemma_pending_mark(s.drop_last(), i);
    }
}

pub proof fn lemma_pending_unmarked(n: nat)
    ensures
        pending(Seq::new(n, |i: int| false)) == n,
    decreases n,
{
    if n > 0 {
        assert(Seq::new(n, |i: int| false).drop_last() == Seq::new((n - 1) as nat, |i: int| false));
        lemma_pending_unmarked((n - 1) as nat);
    }
}

#[derive(Debug)]
pub enum GraphError {
    /// A requirement names an article index that the catalog does not hold.
    UnknownArticle(usize),
    /// The articles listed each require the next, and the last the first.
    CyclicDependency(Vec<usize>),
}

/// The acyclic dependency graph of a catalog, recorded as a numbering of the
/// articles in which every article comes after all it requires.
#[derive(Debug)]
pub struct DependencyGraph {
    pub position: Vec<usize>,
}

/// Positions fall strictly along a chain of requirements, so no numbering
/// satisfies a cycle.
proof fn lemma_order_decreases(c: &Catalog, path: Seq<usize>, pos: Seq<usize>, i: int)
    requires
        is_cycle(c, path),
        valid_order(c, pos),
        0 <= i < path.len(),
    ensures
        pos[path[i] as int] + i <= pos[path[0] as int],
    decreases i,
{
    if i > 0 {
        lemma_order_decreases(c, path, pos, i - 1);
        assert(requires_article(c, path[i - 1] as int, path[i] as int));
        let k = choose|k: int|
            0 <= k < requirements_of(c, path[i - 1] as int).len() && (#[trigger] requirements_of(
                c,
                path[i - 1] as int,
            )[k]).article == path[i] as int;
        assert(pos[requirements_of(c, path[i - 1] as int)[k].article as int] < pos[path[i
            - 1] as int]);
    }
}

/// A catalog in which some articles require each other in a cycle is not
/// acyclic, so building its dependency graph fails.
pub proof fn lemma_cycle_rejected(c: &Catalog, path: Seq<usize>)
    requires
        is_cycle(c, path),
    ensures
        !acyclic(c),
{
    if acyclic(c) {
        let pos = choose|pos: Seq<usize>| valid_order(c, pos);
        let last = path.len() - 1;
        lemma_order_decreases(c, path, pos, last);
        assert(requires_article(c, path[last] as int, path[0] as int));
        let k = choose|k: int|
            0 <= k < requirements_of(c, path[last] as int).len() && (#[trigger] requirements_of(
                c,
                path[last] as int,
            )[k]).article == path[0] as int;
        assert(pos[requirements_of(c, path[last] as int)[k].article as int] < pos[path[last] as int]);
    }
}

fn is_ready(c: &Catalog, done: &Vec<bool>, x: usize) -> (r: bool)
    requires
        c.wf(),
        references_known(c),
        done@.len() == c.articles@.len(),
        x < c.articles@.len(),
    ensures
        r == ready(c, done@, x as int),
{
    proof {
        reveal(ready);
    }
    let cnt = c.requirement_count(x);
    let mut k: usize = 0;
    while k < cnt
        invariant
            c.wf(),
            references_known(c),
            done@.len() == c.articles@.len(),
            x < c.articles@.len(),
            cnt == requirements_of(c, x as int).len(),
            k <= cnt,
            forall|j: int|
                0 <= j < k ==> done@[(#[trigger] requirements_of(c, x as int)[j]).article as int],
        decreases cnt - k,
    {
        let req = c.requirement_at(x, k);
        if !done[req.article] {
            proof {
                reveal(ready);
                assert(requirements_of(c, x as int)[k as int].article == req.article);
            }
            return false;
        }
        k = k + 1;
    }
    true
}

/// A requirement of `x` that is not yet marked in `done`.
fn blocking_requirement(c: &Catalog, done: &Vec<bool>, x: usize) -> (y: usize)
    requires
        c.wf(),
        references_known(c),
        done@.len() == c.articles@.len(),
        x < c.articles@.len(),
        !ready(c, done@, x as int),
    ensures
        y < c.articles@.len(),
        !done@[y as int],
        requires_article(c, x as int, y as int),
{
    proof {
        reveal(ready);
    }
    let cnt = c.requirement_count(x);
    let mut k: usize = 0;
    while k < cnt
        invariant
            c.wf(),
            references_known(c),
            done@.len() == c.articles@.len(),
            x < c.articles@.len(),
            !ready(c, done@, x as int),
            cnt == requirements_of(c, x as int).len(),
            k <= cnt,
            forall|j: int|
                0 <= j < k ==> done@[(#[trigger] requirements_of(c, x as int)[j]).article as int],
        decreases cnt - k,
    {
        let req = c.requirement_at(x, k);
        if !done[req.article] {
            assert(requirements_of(c, x as int)[k as int].article == req.article);
            return req.article;
        }
        k = k + 1;
    }
    0
}

/// Follows unmarked requirements from `start` until an article repeats, and
/// returns the cycle so found.
fn find_cycle(c: &Catalog, done: &Vec<bool>, start: usize) -> (r: Vec<usize>)
    requires
        c.wf(),
        references_known(c),
        done@.len() == c.articles@.len(),
        start < c.articles@.len(),
        !done@[start as int],
        forall|x: int| 0 <= x < c.articles@.len() && !done@[x] ==> !ready(c, done@, x),
    ensures
        is_cycle(c, r@),
{
    let n = c.articles.len();
    let mut on_path: Vec<bool> = Vec::new();
    let mut index_of: Vec<usize> = Vec::new();
    while on_path.len() < n
        invariant
            on_path@.len() <= n,
            index_of@.len() == on_path@.len(),
            forall|i: int| 0 <= i < on_path@.len() ==> !on_path@[i],
        decreases n - on_path@.len(),
    {
        on_path.push(false);
        index_of.push(0);
    }
    let mut walk: Vec<usize> = Vec::new();
    let mut cur = start;
    while !on_path[cur]
        invariant
            c.wf(),
            references_known(c),
            n == c.articles@.len(),
            done@.len() == n,
            on_path@.len() == n,
            index_of@.len() == n,
            forall|x: int| 0 <= x < n && !done@[x] ==> !ready(c, done@, x),
            cur < n,
            !done@[cur as int],
            forall|i: int| 0 <= i < walk@.len() ==> #[trigger] walk@[i] < n,
            forall|v: int|
                0 <= v < n && #[trigger] on_path@[v] ==> index_of@[v] < walk@.len()
                    && walk@[index_of@[v] as int] == v,
            forall|i: int|
                0 <= i < walk@.len() - 1 ==> requires_article(
                    c,
                    #[trigger] walk@[i] as int,
                    walk@[i + 1] as int,
                ),
            walk@.len() > 0 ==> requires_article(c, walk@.last() as int, cur as int),
        decreases pending(on_path@),
    {
        proof {
            lemma_pending_mark(on_path@, cur as int);
        }
        on_path.set(cur, true);
        index_of.set(cur, walk.len());
        walk.push(cur);
        cur = blocking_requirement(c, done, cur);
    }
    let p = index_of[cur];
    let ghost from = p as int;
    let mut cycle: Vec<usize> = Vec::new();
    let mut i = p;
    while i < walk.len()
        invariant
            0 <= from <= i <= walk@.len(),
            cycle@ == walk@.subrange(from, i as int),
        decreases walk@.len() - i,
    {
        proof {
            assert(walk@.subrange(from, i as int + 1) =~= walk@.subrange(from, i as int).push(
                walk@[i as int],
            ));
        }
        cycle.push(walk[i]);
        i = i + 1;
    }
    proof {
        assert(cycle@ =~= walk@.subrange(from, walk@.len() as int));
        assert forall|j: int| 0 <= j < cycle@.len() - 1 implies requires_article(
            c,
            #[trigger] cycle@[j] as int,
            cycle@[j + 1] as int,
        ) by {
            assert(cycle@[j] == walk@[from + j]);
            assert(cycle@[j + 1] == walk@[from + j + 1]);
        }
        assert forall|j: int| 0 <= j < cycle@.len() implies #[trigger] cycle@[j] < n by {
            assert(cycle@[j] == walk@[from + j]);
        }
    }
    cycle
}

/// Finds a requirement that names no article of the catalog.
fn find_unknown_reference(c: &Catalog) -> (r: Option<usize>)
    requires
        c.wf(),
    ensures
        match r {
            Some(y) => y >= c.articles@.len() && exists|x: int, k: int|
                0 <= x < c.articles@.len() && 0 <= k < requirements_of(c, x).len()
                    && (#[trigger] requirements_of(c, x)[k]).article == y,
            None => references_known(c),
        },
{
    let n = c.articles.len();
    let mut x: usize = 0;
    while x < n
        invariant
            c.wf(),
            n == c.articles@.len(),
            x <= n,
            forall|x2: int, k: int|
                0 <= x2 < x && 0 <= k < requirements_of(c, x2).len()
                    ==> (#[trigger] requirements_of(c, x2)[k]).article < n,
        decreases n - x,
    {
        let cnt = c.requirement_count(x);
        let mut k: usize = 0;
        while k < cnt
            invariant
                c.wf(),
                n == c.articles@.len(),
                x < n,
                cnt == requirements_of(c, x as int).len(),
                k <= cnt,
                forall|x2: int, k2: int|
                    0 <= x2 < x && 0 <= k2 < requirements_of(c, x2).len()
                        ==> (#[trigger] requirements_of(c, x2)[k2]).article < n,
                forall|k2: int|
                    0 <= k2 < k ==> (#[trigger] requirements_of(c, x as int)[k2]).article < n,
            decreases cnt - k,
        {
            let req = c.requirement_at(x, k);
            if req.article >= n {
                assert(requirements_of(c, x as int)[k as int].article == req.article);
                return Some(req.article);
            }
            k = k + 1;
        }
        x = x + 1;
    }
    None
}

impl DependencyGraph {
    /// The graph records a valid dependency order of the catalog's articles.
    pub open spec fn built_from(&self, c: &Catalog) -> bool {
        valid_order(c, self.position@)
    }

    /// Builds the dependency graph of `c`. It fails with `UnknownArticle` when
    /// a requirement names no article of the catalog, and otherwise with
    /// `CyclicDependency`, carrying a cycle, exactly when requirements form
    /// one.
    pub fn build(c: &Catalog) -> (r: Result<DependencyGraph, GraphError>)
        requires
            c.wf(),
        ensures
            r is Ok <==> references_known(c) && acyclic(c),
            match r {
                Ok(g) => g.built_from(c),
                Err(GraphError::UnknownArticle(y)) => !references_known(c) && y
                    >= c.articles@.len() && exists|x: int, k: int|
                    0 <= x < c.articles@.len() && 0 <= k < requirements_of(c, x).len()
                        && (#[trigger] requirements_of(c, x)[k]).article == y,
                Err(GraphError::CyclicDependency(path)) => references_known(c) && is_cycle(
                    c,
                    path@,
                ),
            },
    {
        if let Some(y) = find_unknown_reference(c) {
            return Err(GraphError::UnknownArticle(y));
        }
        let n = c.articles.len();
        let mut done: Vec<bool> = Vec::new();
        let mut position: Vec<usize> = Vec::new();
        while done.len() < n
            invariant
                done@.len() <= n,
                position@.len() == done@.len(),
                done@ == Seq::new(done@.len(), |i: int| false),
            decreases n - done@.len(),
        {
            done.push(false);
            position.push(0);
            assert(done@ =~= Seq::new(done@.len(), |i: int| false));
        }
        proof {
            lemma_pending_unmarked(n as nat);
        }
        let mut count: usize = 0;
        loop
            invariant
                c.wf(),
                references_known(c),
                n == c.articles@.len(),
                done@.len() == n,
                position@.len() == n,
                count + pending(done@) == n,
                forall|x: int| 0 <= x < n && #[trigger] done@[x] ==> position@[x] < count,
                forall|x: int, k: int|
                    0 <= x < n && done@[x] && 0 <= k < requirements_of(c, x).len() ==> done@[(
                    #[trigger] requirements_of(c, x)[k]).article as int] && position@[requirements_of(
                        c,
                        x,
                    )[k].article as int] < position@[x],
            decreases pending(done@),
        {
            let mut x: usize = 0;
            let mut unmarked: Option<usize> = None;
            let mut chosen: Option<usize> = None;
            while x < n && chosen.is_none()
                invariant
                    c.wf(),
                    references_known(c),
                    n == c.articles@.len(),
                    done@.len() == n,
                    x <= n,
                    match chosen {
                        Some(cx) => cx < n && !done@[cx as int] && ready(c, done@, cx as int),
                        None => forall|x2: int| 0 <= x2 < x && !done@[x2] ==> !ready(c, done@, x2),
                    },
                    match unmarked {
                        Some(u) => u < n && !done@[u as int],
                        None => forall|x2: int| 0 <= x2 < x ==> done@[x2],
                    },
                decreases n - x,
            {
                if !done[x] {
                    unmarked = Some(x);
                    if is_ready(c, &done, x) {
                        chosen = Some(x);
                    }
                }
                x = x + 1;
            }
            match chosen {
                Some(x) => {
                    proof {
                        reveal(ready);
                        lemma_pending_mark(done@, x as int);
                    }
                    let ghost before = done@;
                    done.set(x, true);
                    position.set(x, count);
                    count = count + 1;
                    assert forall|x2: int, k: int|
                        0 <= x2 < n && done@[x2] && 0 <= k < requirements_of(c, x2).len() implies done@[(
                        #[trigger] requirements_of(c, x2)[k]).article as int] && position@[requirements_of(
                            c,
                            x2,
                        )[k].article as int] < position@[x2] by {
                        let y = requirements_of(c, x2)[k].article as int;
                        if x2 == x {
                            assert(before[y]);
                        } else {
                            assert(before[x2]);
                        }
                    }
                },
                None => {
                    match unmarked {
                        Some(u) => {
                            let path = find_cycle(c, &done, u);
                            proof {
                                lemma_cycle_rejected(c, path@);
                            }
                            return Err(GraphError::CyclicDependency(path));
                        },
                        None => {
                            assert(valid_order(c, position@));
                            return Ok(DependencyGraph { position });
                        },
                    }
                },
            }
        }
    }
}

} // verus!
