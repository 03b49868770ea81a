//! The availability scheduler: earliest date at which a quantity of an
//! article can be had, from stock or by producing it along its route once
//! all its inputs are ready. Dates and durations are day numbers.
use vstd::prelude::*;
use crate::catalog::{Catalog, Route, requirements_of};
use crate::depgraph::{DependencyGraph, valid_order};
use crate::inventory::{available_quantity, storages_known, total};

verus! {

#[derive(Debug, Clone, Copy, PartialEq, Eq)]
pub enum SchedulingError {
    /// The article or one of the storages is not in the catalog.
    NotFound,
    /// The article is short in stock and has no route to produce it.
    Unproducible(usize),
    /// A computed date does not fit in 64 bits.
    DateOverflow,
}

#[derive(Debug, Clone, Copy, PartialEq, Eq)]
pub enum Source {
    Inventory,
    Production,
}

/// A scheduling answer: the date, whether it comes from stock or from
/// production, the route used when produced, and the chain of articles
/// whose availability set the date (see `critical_chain`).
#[derive(Debug, Clone, PartialEq, Eq)]
pub struct ScheduleResult {
    pub date: u64,
    pub source: Source,
    pub route: Option<usize>,
    pub chain: Vec<usize>,
}

pub open spec fn later(a: int, b: int) -> int {
    if a >= b {
        a
    } else {
        b
    }
}

/// End date of `route` for a request at `t` whose inputs are ready at
/// `join`: a fixed start wins over the request time, and a missing duration
/// counts as none.
pub open spec fn route_end(route: Route, join: int, t: int) -> int {
    match route.start_date {
        Some(s) => match route.duration {
            Some(d) => s + d,
            None => s as int,
        },
        None => match route.duration {
            Some(d) => later(t, join) + d,
            None => join,
        },
    }
}

/// Whether `st` together hold at least `qty` units of `x`.
pub open spec fn covered(c: &Catalog, st: Seq<usize>, x: int, qty: nat) -> bool {
    total(c, st, x as usize) >= qty
}

/// The earliest date at which `qty` units of article `x` are available for
/// a request at `t` from the storages `st`, or why there is none.
pub open spec fn availability(
    c: &Catalog,
    pos: Seq<usize>,
    x: int,
    qty: nat,
    st: Seq<usize>,
    t: int,
) -> Result<int, SchedulingError>
    decreases pos[x], requirements_of(c, x).len() + 1,
{
    if !(valid_order(c, pos) && 0 <= x < c.articles@.len()) {
        Err(SchedulingError::NotFound)
    } else if covered(c, st, x, qty) {
        Ok(t)
    } else {
        match c.articles@[x].route {
            None => Err(SchedulingError::Unproducible(x as usize)),
            Some(r) => match inputs_ready(c, pos, x, requirements_of(c, x).len(), st, t) {
                Err(e) => Err(e),
                Ok(j) => {
                    let end = route_end(c.routes@[r as int], j, t);
                    if end > u64::MAX {
                        Err(SchedulingError::DateOverflow)
                    } else {
                        Ok(end)
                    }
                },
            },
        }
    }
}

/// The date at which the first `i` requirements of `x` are all available
/// (the latest of their dates, and `t` when there are none), or the first
/// failure among them.
pub open spec fn inputs_ready(
    c: &Catalog,
    pos: Seq<usize>,
    x: int,
    i: nat,
    st: Seq<usize>,
    t: int,
) -> Result<int, SchedulingError>
    decreases pos[x], i,
{
    if i == 0 || !(valid_order(c, pos) && 0 <= x < c.articles@.len() && i <= requirements_of(
        c,
        x,
    ).len()) {
        Ok(t)
    } else {
        match inputs_ready(c, pos, x, (i - 1) as nat, st, t) {
            Err(e) => Err(e),
            Ok(m) => {
                let req = requirements_of(c, x)[i - 1];
                match availability(c, pos, req.article as int, req.quantity as nat, st, t) {
                    Err(e) => Err(e),
                    Ok(d) => Ok(later(m, d)),
                }
            },
        }
    }
}

/// Index of the first of the first `i` requirements of `x` whose date is
/// their join date, when that date is after `t`; -1 when there is none.
pub open spec fn critical_input(
    c: &Catalog,
    pos: Seq<usize>,
    x: int,
    i: nat,
    st: Seq<usize>,
    t: int,
) -> int
    decreases i,
{
    if i == 0 {
        -1
    } else {
        let prev = critical_input(c, pos, x, (i - 1) as nat, st, t);
        match inputs_ready(c, pos, x, (i - 1) as nat, st, t) {
            Ok(m) => match requirement_availability(c, pos, x, i - 1, st, t) {
                Ok(d) => if d > m {
                    i - 1
                } else {
                    prev
                },
                Err(_) => prev,
            },
            Err(_) => prev,
        }
    }
}

/// The articles that set the date of `x`: `x` itself, then, when its route
/// has no fixed start, the critical input of that route, and so on down to
/// an article taken from stock, made on a fixed-start route, or whose
/// inputs are all ready at the request time.
pub open spec fn critical_chain(
    c: &Catalog,
    pos: Seq<usize>,
    x: int,
    qty: nat,
    st: Seq<usize>,
    t: int,
) -> Seq<usize>
    decreases pos[x],
{
    if !(valid_order(c, pos) && 0 <= x < c.articles@.len()) {
        Seq::empty()
    } else if covered(c, st, x, qty) {
        seq![x as usize]
    } else {
        match c.articles@[x].route {
            None => seq![x as usize],
            Some(r) => if c.routes@[r as int].start_date is Some {
                seq![x as usize]
            } else {
                let k = critical_input(c, pos, x, requirements_of(c, x).len(), st, t);
                if 0 <= k < requirements_of(c, x).len() {
                    seq![x as usize] + critical_chain(
                        c,
                        pos,
                        requirements_of(c, x)[k].article as int,
                        requirements_of(c, x)[k].quantity as nat,
                        st,
                        t,
                    )
                } else {
                    seq![x as usize]
                }
            },
        }
    }
}

pub open spec fn as_dates(r: Result<u64, SchedulingError>) -> Result<int, SchedulingError> {
    match r {
        Ok(d) => Ok(d as int),
        Err(e) => Err(e),
    }
}

/// Once a requirement fails, the inputs of `x` fail with the same error.
proof fn lemma_failure_persists(
    c: &Catalog,
    pos: Seq<usize>,
    x: int,
    i: nat,
    j: nat,
    st: Seq<usize>,
    t: int,
)
    requires
        valid_order(c, pos),
        0 <= x < c.articles@.len(),
        i <= j <= requirements_of(c, x).len(),
        inputs_ready(c, pos, x, i, st, t) is Err,
    ensures
        inputs_ready(c, pos, x, j, st, t) == inputs_ready(c, pos, x, i, st, t),
    decreases j - i,
{
    if j > i {
        lemma_failure_persists(c, pos, x, i, (j - 1) as nat, st, t);
    }
}

/// A result computed earlier in the same scheduling call.
#[derive(Debug, Clone, Copy)]
struct MemoEntry {
    article: usize,
    quantity: u64,
    result: Result<u64, SchedulingError>,
}

/// Every remembered result is the availability of its article and quantity.
spec fn memo_valid(
    c: &Catalog,
    pos: Seq<usize>,
    memo: Seq<MemoEntry>,
    st: Seq<usize>,
    t: int,
) -> bool {
    forall|i: int|
        0 <= i < memo.len() ==> as_dates((#[trigger] memo[i]).result) == availability(
            c,
            pos,
            memo[i].article as int,
            memo[i].quantity as nat,
            st,
            t,
        )
}

/// Availability of `qty` units of `x`, taken from `memo` when it was already
/// computed during this call, and remembered there otherwise.
fn resolve(
    c: &Catalog,
    g: &DependencyGraph,
    x: usize,
    qty: u64,
    st: &Vec<usize>,
    t: u64,
    memo: &mut Vec<MemoEntry>,
) -> (r: Result<u64, SchedulingError>)
    requires
        c.wf(),
        g.built_from(c),
        x < c.articles@.len(),
        storages_known(c, st@),
        memo_valid(c, g.position@, old(memo)@, st@, t as int),
    ensures
        as_dates(r) == availability(c, g.position@, x as int, qty as nat, st@, t as int),
        memo_valid(c, g.position@, final(memo)@, st@, t as int),
    decreases g.position@[x as int], 1nat,
{
    let mut i: usize = 0;
    while i < memo.len()
        invariant
            i <= memo@.len(),
            memo_valid(c, g.position@, memo@, st@, t as int),
        decreases memo@.len() - i,
    {
        let e = memo[i];
        if e.article == x && e.quantity == qty {
            assert(memo@[i as int] == e);
            return e.result;
        }
        i = i + 1;
    }
    let r = produce(c, g, x, qty, st, t, memo);
    memo.push(MemoEntry { article: x, quantity: qty, result: r });
    proof {
        let m = memo@;
        assert forall|j: int| 0 <= j < m.len() implies as_dates((#[trigger] m[j]).result)
            == availability(c, g.position@, m[j].article as int, m[j].quantity as nat, st@, t as int) by {
            if j < m.len() - 1 {
                assert(m[j] == m.drop_last()[j]);
            }
        }
    }
    r
}

/// Availability of `qty` units of `x`: from stock, or by its route once the
/// inputs are resolved.
fn produce(
    c: &Catalog,
    g: &DependencyGraph,
    x: usize,
    qty: u64,
    st: &Vec<usize>,
    t: u64,
    memo: &mut Vec<MemoEntry>,
) -> (r: Result<u64, SchedulingError>)
    requires
        c.wf(),
        g.built_from(c),
        x < c.articles@.len(),
        storages_known(c, st@),
        memo_valid(c, g.position@, old(memo)@, st@, t as int),
    ensures
        as_dates(r) == availability(c, g.position@, x as int, qty as nat, st@, t as int),
        memo_valid(c, g.position@, final(memo)@, st@, t as int),
    decreases g.position@[x as int], 0nat,
{
    let ghost pos = g.position@;
    let have = match available_quantity(c, x, st) {
        Ok(q) => q,
        Err(_) => 0,
    };
    if have >= qty as u128 {
        return Ok(t);
    }
    let route = match c.articles[x].route {
        None => {
            return Err(SchedulingError::Unproducible(x));
        },
        Some(route) => route,
    };
    let cnt = c.requirement_count(x);
    let mut join: u64 = t;
    let mut k: usize = 0;
    while k < cnt
        invariant
            c.wf(),
            g.built_from(c),
            pos == g.position@,
            x < c.articles@.len(),
            storages_known(c, st@),
            cnt == requirements_of(c, x as int).len(),
            k <= cnt,
            join >= t,
            !covered(c, st@, x as int, qty as nat),
            c.articles@[x as int].route == Some(route),
            memo_valid(c, pos, memo@, st@, t as int),
            inputs_ready(c, pos, x as int, k as nat, st@, t as int) == Ok::<int, SchedulingError>(
                join as int,
            ),
        decreases cnt - k,
    {
        let req = c.requirement_at(x, k);
        assert(pos[req.article as int] < pos[x as int]);
        match resolve(c, g, req.article, req.quantity, st, t, memo) {
            Err(e) => {
                proof {
                    assert(inputs_ready(c, pos, x as int, (k + 1) as nat, st@, t as int) == Err::<
                        int,
                        SchedulingError,
                    >(e));
                    lemma_failure_persists(c, pos, x as int, (k + 1) as nat, cnt as nat, st@, t as int);
                    assert(inputs_ready(c, pos, x as int, requirements_of(c, x as int).len(), st@, t as int) == Err::<
                        int,
                        SchedulingError,
                    >(e));
                    assert(!covered(c, st@, x as int, qty as nat));
                }
                return Err(e);
            },
            Ok(d) => {
                if d > join {
                    join = d;
                }
            },
        }
        k = k + 1;
    }
    let rt = c.routes[route];
    match rt.start_date {
        Some(s) => match rt.duration {
            Some(d) => {
                if d > u64::MAX - s {
                    Err(SchedulingError::DateOverflow)
                } else {
                    Ok(s + d)
                }
            },
            None => Ok(s),
        },
        None => match rt.duration {
            Some(d) => {
                if d > u64::MAX - join {
                    Err(SchedulingError::DateOverflow)
                } else {
                    Ok(join + d)
                }
            },
            None => Ok(join),
        },
    }
}

/// The index of the critical input of `x` (see `critical_input`), for an
/// article whose inputs can all be had.
fn critical_requirement(
    c: &Catalog,
    g: &DependencyGraph,
    x: usize,
    st: &Vec<usize>,
    t: u64,
    memo: &mut Vec<MemoEntry>,
) -> (r: Option<usize>)
    requires
        c.wf(),
        g.built_from(c),
        x < c.articles@.len(),
        storages_known(c, st@),
        memo_valid(c, g.position@, old(memo)@, st@, t as int),
        inputs_ready(c, g.position@, x as int, requirements_of(c, x as int).len(), st@, t as int) is Ok,
    ensures
        memo_valid(c, g.position@, final(memo)@, st@, t as int),
        match r {
            Some(k) => k as int == critical_input(
                c,
                g.position@,
                x as int,
                requirements_of(c, x as int).len(),
                st@,
                t as int,
            ) && k < requirements_of(c, x as int).len(),
            None => critical_input(
                c,
                g.position@,
                x as int,
                requirements_of(c, x as int).len(),
                st@,
                t as int,
            ) < 0,
        },
{
    let ghost pos = g.position@;
    let cnt = c.requirement_count(x);
    let mut join: u64 = t;
    let mut best: Option<usize> = None;
    let mut k: usize = 0;
    while k < cnt
        invariant
            c.wf(),
            g.built_from(c),
            pos == g.position@,
            x < c.articles@.len(),
            storages_known(c, st@),
            cnt == requirements_of(c, x as int).len(),
            k <= cnt,
            memo_valid(c, pos, memo@, st@, t as int),
            inputs_ready(c, pos, x as int, cnt as nat, st@, t as int) is Ok,
            inputs_ready(c, pos, x as int, k as nat, st@, t as int) == Ok::<int, SchedulingError>(
                join as int,
            ),
            match best {
                Some(b) => b as int == critical_input(c, pos, x as int, k as nat, st@, t as int)
                    && b < k,
                None => critical_input(c, pos, x as int, k as nat, st@, t as int) < 0,
            },
        decreases cnt - k,
    {
        let req = c.requirement_at(x, k);
        assert(pos[req.article as int] < pos[x as int]);
        let d = resolve(c, g, req.article, req.quantity, st, t, memo);
        proof {
            if d is Err {
                lemma_failure_persists(c, pos, x as int, (k + 1) as nat, cnt as nat, st@, t as int);
            }
        }
        let d = match d {
            Ok(d) => d,
            Err(_) => t,
        };
        if d > join {
            join = d;
            best = Some(k);
        }
        k = k + 1;
    }
    best
}

/// The earliest date at which `quantity` units of `article` are available
/// for a request at `reference_time`, drawing on the storages `storages`:
/// the request time itself when they hold enough, otherwise the end date of
/// the article's route once all its inputs are available.
pub fn earliest_available(
    g: &DependencyGraph,
    c: &Catalog,
    article: usize,
    quantity: u64,
    storages: &Vec<usize>,
    reference_time: u64,
) -> (r: Result<ScheduleResult, SchedulingError>)
    requires
        c.wf(),
        g.built_from(c),
    ensures
        (article >= c.articles@.len() || !storages_known(c, storages@)) ==> r == Err::<
            ScheduleResult,
            SchedulingError,
        >(SchedulingError::NotFound),
        (article < c.articles@.len() && storages_known(c, storages@)) ==> match availability(
            c,
            g.position@,
            article as int,
            quantity as nat,
            storages@,
            reference_time as int,
        ) {
            Ok(d) => match r {
                Ok(res) => {
                    &&& res.date == d
                    &&& res.source == if covered(c, storages@, article as int, quantity as nat) {
                        Source::Inventory
                    } else {
                        Source::Production
                    }
                    &&& res.route == if covered(c, storages@, article as int, quantity as nat) {
                        None
                    } else {
                        c.articles@[article as int].route
                    }
                    &&& res.chain@ == critical_chain(
                        c,
                        g.position@,
                        article as int,
                        quantity as nat,
                        storages@,
                        reference_time as int,
                    )
                },
                Err(_) => false,
            },
            Err(e) => r == Err::<ScheduleResult, SchedulingError>(e),
        },
{
    if article >= c.articles.len() {
        return Err(SchedulingError::NotFound);
    }
    let have = match available_quantity(c, article, storages) {
        Ok(q) => q,
        Err(_) => {
            return Err(SchedulingError::NotFound);
        },
    };
    if have >= quantity as u128 {
        return Ok(
            ScheduleResult {
                date: reference_time,
                source: Source::Inventory,
                route: None,
                chain: vec![article],
            },
        );
    }
    let mut memo: Vec<MemoEntry> = Vec::new();
    let date = match resolve(c, g, article, quantity, storages, reference_time, &mut memo) {
        Ok(d) => d,
        Err(e) => {
            return Err(e);
        },
    };
    let chain = trace_chain(c, g, article, quantity, storages, reference_time, &mut memo);
    Ok(
        ScheduleResult {
            date,
            source: Source::Production,
            route: c.articles[article].route,
            chain,
        },
    )
}

/// Follows the critical inputs down from `x`, collecting `critical_chain`.
fn trace_chain(
    c: &Catalog,
    g: &DependencyGraph,
    x: usize,
    qty: u64,
    st: &Vec<usize>,
    t: u64,
    memo: &mut Vec<MemoEntry>,
) -> (r: Vec<usize>)
    requires
        c.wf(),
        g.built_from(c),
        x < c.articles@.len(),
        storages_known(c, st@),
        memo_valid(c, g.position@, old(memo)@, st@, t as int),
        availability(c, g.position@, x as int, qty as nat, st@, t as int) is Ok,
    ensures
        r@ == critical_chain(c, g.position@, x as int, qty as nat, st@, t as int),
{
    let ghost pos = g.position@;
    let ghost full = critical_chain(c, pos, x as int, qty as nat, st@, t as int);
    let mut chain: Vec<usize> = Vec::new();
    let mut cur = x;
    let mut cur_qty = qty;
    let mut finished = false;
    while !finished
        invariant
            c.wf(),
            g.built_from(c),
            pos == g.position@,
            cur < c.articles@.len(),
            storages_known(c, st@),
            memo_valid(c, pos, memo@, st@, t as int),
            full == critical_chain(c, pos, x as int, qty as nat, st@, t as int),
            !finished ==> availability(c, pos, cur as int, cur_qty as nat, st@, t as int) is Ok,
            !finished ==> chain@ + critical_chain(c, pos, cur as int, cur_qty as nat, st@, t as int)
                == full,
            finished ==> chain@ == full,
        decreases pos[cur as int], if finished {
            0nat
        } else {
            1nat
        },
    {
        let ghost rest = critical_chain(c, pos, cur as int, cur_qty as nat, st@, t as int);
        let ghost before = chain@;
        chain.push(cur);
        let have = match available_quantity(c, cur, st) {
            Ok(q) => q,
            Err(_) => 0,
        };
        if have >= cur_qty as u128 {
            assert(rest == seq![cur]);
            assert(chain@ == before + rest);
            finished = true;
        } else {
            match c.articles[cur].route {
                None => {
                    assert(rest == seq![cur]);
                    assert(chain@ == before + rest);
                    finished = true;
                },
                Some(route) => {
                    if c.routes[route].start_date.is_some() {
                        assert(rest == seq![cur]);
                        assert(chain@ == before + rest);
                        finished = true;
                    } else {
                        match critical_requirement(c, g, cur, st, t, memo) {
                            None => {
                                assert(rest == seq![cur]);
                                assert(chain@ == before + rest);
                                finished = true;
                            },
                            Some(k) => {
                                let req = c.requirement_at(cur, k);
                                assert(pos[req.article as int] < pos[cur as int]);
                                proof {
                                    let next = critical_chain(
                                        c,
                                        pos,
                                        req.article as int,
                                        req.quantity as nat,
                                        st@,
                                        t as int,
                                    );
                                    assert(rest == seq![cur] + next);
                                    assert(chain@ + next == before + rest);
                                    lemma_inputs_latest(
                                        c,
                                        pos,
                                        cur as int,
                                        requirements_of(c, cur as int).len(),
                                        st@,
                                        t as int,
                                    );
                                    assert(requirement_availability(c, pos, cur as int, k as int, st@, t as int) is Ok);
                                }
                                cur = req.article;
                                cur_qty = req.quantity;
                            },
                        }
                    }
                },
            }
        }
    }
    chain
}

/// No route of the catalog has a fixed start date before `t`.
pub open spec fn starts_not_before(c: &Catalog, t: int) -> bool {
    forall|r: int|
        0 <= r < c.routes@.len() ==> match (#[trigger] c.routes@[r]).start_date {
            Some(s) => s >= t,
            None => true,
        }
}

/// An availability date is never before the request time when no route
/// starts earlier than the request, and it is the request time itself when
/// the storages cover the demand.
pub proof fn lemma_not_before_request(
    c: &Catalog,
    pos: Seq<usize>,
    x: int,
    qty: nat,
    st: Seq<usize>,
    t: int,
)
    requires
        c.wf(),
        valid_order(c, pos),
        0 <= x < c.articles@.len(),
        starts_not_before(c, t),
    ensures
        match availability(c, pos, x, qty, st, t) {
            Ok(d) => d >= t && (covered(c, st, x, qty) ==> d == t),
            Err(_) => true,
        },
    decreases pos[x], requirements_of(c, x).len() + 1,
{
    if !covered(c, st, x, qty) {
        if let Some(r) = c.articles@[x].route {
            lemma_inputs_not_before(c, pos, x, requirements_of(c, x).len(), st, t);
            assert(c.routes@[r as int].start_date matches Some(s) ==> s >= t);
        }
    }
}

/// The inputs of an article are never ready before the request time.
pub proof fn lemma_inputs_not_before(
    c: &Catalog,
    pos: Seq<usize>,
    x: int,
    i: nat,
    st: Seq<usize>,
    t: int,
)
    requires
        c.wf(),
        valid_order(c, pos),
        0 <= x < c.articles@.len(),
        i <= requirements_of(c, x).len(),
        starts_not_before(c, t),
    ensures
        match inputs_ready(c, pos, x, i, st, t) {
            Ok(m) => m >= t,
            Err(_) => true,
        },
    decreases pos[x], i,
{
    if i > 0 {
        lemma_inputs_not_before(c, pos, x, (i - 1) as nat, st, t);
        let req = requirements_of(c, x)[i - 1];
        assert(pos[req.article as int] < pos[x]);
        lemma_not_before_request(c, pos, req.article as int, req.quantity as nat, st, t);
    }
}

/// When one of the storages alone holds the demanded quantity, the article
/// is available at the request time, whatever its route.
pub proof fn lemma_stock_first(
    c: &Catalog,
    pos: Seq<usize>,
    x: int,
    qty: nat,
    st: Seq<usize>,
    t: int,
    i: int,
)
    requires
        valid_order(c, pos),
        0 <= x < c.articles@.len(),
        0 <= i < st.len(),
        c.stored(st[i] as int, x as usize) >= qty,
    ensures
        availability(c, pos, x, qty, st, t) == Ok::<int, SchedulingError>(t),
{
    crate::inventory::lemma_total_covers_member(c, st, x as usize, i);
}

/// A route with a fixed start date and no duration ends on that date,
/// whatever the request time, once its inputs can be had.
pub proof fn lemma_fixed_start(
    c: &Catalog,
    pos: Seq<usize>,
    x: int,
    qty: nat,
    st: Seq<usize>,
    t: int,
    r: usize,
    start: u64,
)
    requires
        valid_order(c, pos),
        0 <= x < c.articles@.len(),
        !covered(c, st, x, qty),
        c.articles@[x].route == Some(r),
        c.routes@[r as int].start_date == Some(start),
        c.routes@[r as int].duration is None,
        inputs_ready(c, pos, x, requirements_of(c, x).len(), st, t) is Ok,
    ensures
        availability(c, pos, x, qty, st, t) == Ok::<int, SchedulingError>(start as int),
{
}

/// A route with a duration, no fixed start and no inputs ends that long
/// after the request time.
pub proof fn lemma_duration_only(
    c: &Catalog,
    pos: Seq<usize>,
    x: int,
    qty: nat,
    st: Seq<usize>,
    t: int,
    r: usize,
    d: u64,
)
    requires
        valid_order(c, pos),
        0 <= x < c.articles@.len(),
        !covered(c, st, x, qty),
        c.articles@[x].route == Some(r),
        c.routes@[r as int].start_date is None,
        c.routes@[r as int].duration == Some(d),
        requirements_of(c, x).len() == 0,
        0 <= t,
        t + d <= u64::MAX,
    ensures
        availability(c, pos, x, qty, st, t) == Ok::<int, SchedulingError>(t + d),
{
}

/// Availability of the `k`-th requirement of article `x`.
pub open spec fn requirement_availability(
    c: &Catalog,
    pos: Seq<usize>,
    x: int,
    k: int,
    st: Seq<usize>,
    t: int,
) -> Result<int, SchedulingError> {
    availability(
        c,
        pos,
        requirements_of(c, x)[k].article as int,
        requirements_of(c, x)[k].quantity as nat,
        st,
        t,
    )
}

/// Inputs join at the latest of their dates: every requirement is available
/// by then, and the join date is the request time or one of those dates
/// itself (it is a maximum, not a sum).
pub proof fn lemma_inputs_latest(
    c: &Catalog,
    pos: Seq<usize>,
    x: int,
    i: nat,
    st: Seq<usize>,
    t: int,
)
    requires
        valid_order(c, pos),
        0 <= x < c.articles@.len(),
        i <= requirements_of(c, x).len(),
    ensures
        inputs_ready(c, pos, x, i, st, t) is Ok ==> {
            let m = inputs_ready(c, pos, x, i, st, t)->Ok_0;
            &&& m >= t
            &&& forall|k: int|
                0 <= k < i ==> (#[trigger] requirement_availability(c, pos, x, k, st, t)) is Ok
                    && requirement_availability(c, pos, x, k, st, t)->Ok_0 <= m
            &&& (m == t || exists|k: int|
                0 <= k < i && #[trigger] requirement_availability(c, pos, x, k, st, t)
                    == Ok::<int, SchedulingError>(m))
        },
    decreases i,
{
    if i > 0 {
        lemma_inputs_latest(c, pos, x, (i - 1) as nat, st, t);
        let prev = inputs_ready(c, pos, x, (i - 1) as nat, st, t);
        if inputs_ready(c, pos, x, i, st, t) is Ok {
            let m = inputs_ready(c, pos, x, i, st, t)->Ok_0;
            let last = requirement_availability(c, pos, x, i - 1, st, t);
            assert(prev is Ok && last is Ok);
            let pm = prev->Ok_0;
            if pm == t {
            } else {
                let k0 = choose|k: int|
                    0 <= k < i - 1 && #[trigger] requirement_availability(c, pos, x, k, st, t)
                        == Ok::<int, SchedulingError>(pm);
                assert(requirement_availability(c, pos, x, k0, st, t) == Ok::<int, SchedulingError>(pm));
            }
        }
    }
}

} // verus!
