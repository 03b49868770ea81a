//! The entity catalog: canonical points, routes, articles and storages, each
//! referred to elsewhere by its index in the catalog.
use vstd::prelude::*;

verus! {

/// A composition requirement: `quantity` units of the article with index
/// `article`.
#[derive(Debug, Clone, Copy, PartialEq, Eq)]
pub struct Requirement {
    pub article: usize,
    pub quantity: u64,
}

/// A named location; its condition, when present, lists the articles that a
/// route leaving it needs as inputs.
#[derive(Debug, Clone)]
pub struct Point {
    pub name: String,
    pub condition: Option<Vec<Requirement>>,
}

/// A directed edge between two points, with an optional lead time and an
/// optional fixed start date (dates and durations in days).
#[derive(Debug, Clone, Copy, PartialEq, Eq)]
pub struct Route {
    pub point_a: usize,
    pub point_b: usize,
    pub duration: Option<u64>,
    pub start_date: Option<u64>,
}

/// A named item, optionally produced through a route.
#[derive(Debug, Clone)]
pub struct Article {
    pub name: String,
    pub route: Option<usize>,
}

/// A named inventory: pairs of (article index, quantity on hand), one pair
/// per article at most.
#[derive(Debug, Clone)]
pub struct Storage {
    pub name: String,
    pub stock: Vec<(usize, u64)>,
}

#[derive(Debug, Clone, Copy, PartialEq, Eq)]
pub enum CatalogError {
    DuplicateName,
    NotFound,
}

/// Quantity of article `a` recorded in `stock` (zero when absent).
pub open spec fn quantity_in(stock: Seq<(usize, u64)>, a: usize) -> nat {
    if exists|i: int| 0 <= i < stock.len() && stock[i].0 == a {
        stock[choose|i: int| 0 <= i < stock.len() && stock[i].0 == a].1 as nat
    } else {
        0
    }
}

pub open spec fn keys_unique(stock: Seq<(usize, u64)>) -> bool {
    forall|i: int, j: int| 0 <= i < j < stock.len() ==> stock[i].0 != stock[j].0
}

/// The composition requirements of article `x`: the condition of the origin
/// point of its route, empty when it has no route or the point none.
pub open spec fn requirements_of(c: &Catalog, x: int) -> Seq<Requirement> {
    match c.articles@[x].route {
        Some(r) => match c.points@[c.routes@[r as int].point_a as int].condition {
            Some(v) => v@,
            None => Seq::empty(),
        },
        None => Seq::empty(),
    }
}

/// The owner of all entity records.
pub struct Catalog {
    pub points: Vec<Point>,
    pub routes: Vec<Route>,
    pub articles: Vec<Article>,
    pub storages: Vec<Storage>,
}

impl Catalog {
    /// Names are unique per kind, every route joins known points, every
    /// article's route is known, and every stock entry names a known article
    /// once.
    pub open spec fn wf(&self) -> bool {
        &&& forall|i: int, j: int|
            0 <= i < j < self.points@.len() ==> self.points@[i].name@ != self.points@[j].name@
        &&& forall|i: int, j: int|
            0 <= i < j < self.articles@.len() ==> self.articles@[i].name@
                != self.articles@[j].name@
        &&& forall|i: int, j: int|
            0 <= i < j < self.storages@.len() ==> self.storages@[i].name@
                != self.storages@[j].name@
        &&& forall|r: int|
            0 <= r < self.routes@.len() ==> self.routes@[r].point_a < self.points@.len()
                && self.routes@[r].point_b < self.points@.len()
        &&& forall|a: int|
            0 <= a < self.articles@.len() ==> match (#[trigger] self.articles@[a]).route {
                Some(r) => r < self.routes@.len(),
                None => true,
            }
        &&& forall|s: int|
            0 <= s < self.storages@.len() ==> keys_unique(self.storages@[s].stock@)
        &&& forall|s: int, i: int|
            0 <= s < self.storages@.len() && 0 <= i < self.storages@[s].stock@.len()
                ==> self.storages@[s].stock@[i].0 < self.articles@.len()
    }

    pub open spec fn has_point_name(&self, name: Seq<char>) -> bool {
        exists|i: int| 0 <= i < self.points@.len() && self.points@[i].name@ == name
    }

    pub open spec fn has_article_name(&self, name: Seq<char>) -> bool {
        exists|i: int| 0 <= i < self.articles@.len() && self.articles@[i].name@ == name
    }

    pub open spec fn has_storage_name(&self, name: Seq<char>) -> bool {
        exists|i: int| 0 <= i < self.storages@.len() && self.storages@[i].name@ == name
    }

    /// Quantity of article `a` on hand in storage `s`.
    pub open spec fn stored(&self, s: int, a: usize) -> nat {
        quantity_in(self.storages@[s].stock@, a)
    }

    pub fn new() -> (r: Catalog)
        ensures
            r.wf(),
            r.points@.len() == 0,
            r.routes@.len() == 0,
            r.articles@.len() == 0,
            r.storages@.len() == 0,
    {
        Catalog { points: Vec::new(), routes: Vec::new(), articles: Vec::new(), storages: Vec::new() }
    }

    pub fn find_point_by_name(&self, name: &String) -> (r: Result<usize, CatalogError>)
        ensures
            match r {
                Ok(i) => i < self.points@.len() && self.points@[i as int].name@ == name@,
                Err(e) => e == CatalogError::NotFound && !self.has_point_name(name@),
            },
    {
        let mut i: usize = 0;
        while i < self.points.len()
            invariant
                i <= self.points@.len(),
                forall|j: int| 0 <= j < i ==> self.points@[j].name@ != name@,
            decreases self.points@.len() - i,
        {
            if self.points[i].name == *name {
                return Ok(i);
            }
            i = i + 1;
        }
        Err(CatalogError::NotFound)
    }

    pub fn find_article_by_name(&self, name: &String) -> (r: Result<usize, CatalogError>)
        ensures
            match r {
                Ok(i) => i < self.articles@.len() && self.articles@[i as int].name@ == name@,
                Err(e) => e == CatalogError::NotFound && !self.has_article_name(name@),
            },
    {
        let mut i: usize = 0;
        while i < self.articles.len()
            invariant
                i <= self.articles@.len(),
                forall|j: int| 0 <= j < i ==> self.articles@[j].name@ != name@,
            decreases self.articles@.len() - i,
        {
            if self.articles[i].name == *name {
                return Ok(i);
            }
            i = i + 1;
        }
        Err(CatalogError::NotFound)
    }

    pub fn find_storage_by_name(&self, name: &String) -> (r: Result<usize, CatalogError>)
        ensures
            match r {
                Ok(i) => i < self.storages@.len() && self.storages@[i as int].name@ == name@,
                Err(e) => e == CatalogError::NotFound && !self.has_storage_name(name@),
            },
    {
        let mut i: usize = 0;
        while i < self.storages.len()
            invariant
                i <= self.storages@.len(),
                forall|j: int| 0 <= j < i ==> self.storages@[j].name@ != name@,
            decreases self.storages@.len() - i,
        {
            if self.storages[i].name == *name {
                return Ok(i);
            }
            i = i + 1;
        }
        Err(CatalogError::NotFound)
    }
    /// Adds a point without condition; its index is returned.
    pub fn register_point(&mut self, name: String) -> (r: Result<usize, CatalogError>)
        requires
            old(self).wf(),
        ensures
            final(self).wf(),
            old(self).has_point_name(name@) ==> r == Err::<usize, CatalogError>(
                CatalogError::DuplicateName,
            ) && *final(self) == *old(self),
            !old(self).has_point_name(name@) ==> r == Ok::<usize, CatalogError>(
                old(self).points@.len() as usize,
            ) && final(self).points@ == old(self).points@.push(Point { name, condition: None })
                && final(self).routes@ == old(self).routes@ && final(self).articles@
                == old(self).articles@ && final(self).storages@ == old(self).storages@,
    {
        self.register_conditional_point(name, None)
    }

    /// Adds a point whose outgoing routes need the given input articles (or
    /// none, for `None`); its index is returned. The requirements are checked
    /// against the articles when the dependency graph is built.
    pub fn register_conditional_point(
        &mut self,
        name: String,
        condition: Option<Vec<Requirement>>,
    ) -> (r: Result<usize, CatalogError>)
        requires
            old(self).wf(),
        ensures
            final(self).wf(),
            old(self).has_point_name(name@) ==> r == Err::<usize, CatalogError>(
                CatalogError::DuplicateName,
            ) && *final(self) == *old(self),
            !old(self).has_point_name(name@) ==> r == Ok::<usize, CatalogError>(
                old(self).points@.len() as usize,
            ) && final(self).points@ == old(self).points@.push(Point { name, condition })
                && final(self).routes@ == old(self).routes@ && final(self).articles@
                == old(self).articles@ && final(self).storages@ == old(self).storages@,
    {
        match self.find_point_by_name(&name) {
            Ok(_) => Err(CatalogError::DuplicateName),
            Err(_) => {
                let id = self.points.len();
                self.points.push(Point { name, condition });
                Ok(id)
            },
        }
    }

    /// Adds a route between two known points; its index is returned.
    pub fn register_route(
        &mut self,
        point_a: usize,
        point_b: usize,
        duration: Option<u64>,
        start_date: Option<u64>,
    ) -> (r: Result<usize, CatalogError>)
        requires
            old(self).wf(),
        ensures
            final(self).wf(),
            (point_a >= old(self).points@.len() || point_b >= old(self).points@.len()) ==> r
                == Err::<usize, CatalogError>(CatalogError::NotFound) && *final(self) == *old(self),
            (point_a < old(self).points@.len() && point_b < old(self).points@.len()) ==> r
                == Ok::<usize, CatalogError>(old(self).routes@.len() as usize) && final(self).routes@
                == old(self).routes@.push(Route { point_a, point_b, duration, start_date })
                && final(self).points@ == old(self).points@ && final(self).articles@
                == old(self).articles@ && final(self).storages@ == old(self).storages@,
    {
        if point_a >= self.points.len() || point_b >= self.points.len() {
            return Err(CatalogError::NotFound);
        }
        let id = self.routes.len();
        self.routes.push(Route { point_a, point_b, duration, start_date });
        Ok(id)
    }

    /// Adds an article, produced through `route` when given; its index is
    /// returned.
    pub fn register_article(&mut self, name: String, route: Option<usize>) -> (r: Result<
        usize,
        CatalogError,
    >)
        requires
            old(self).wf(),
        ensures
            final(self).wf(),
            old(self).has_article_name(name@) ==> r == Err::<usize, CatalogError>(
                CatalogError::DuplicateName,
            ) && *final(self) == *old(self),
            !old(self).has_article_name(name@) && (match route {
                Some(x) => x >= old(self).routes@.len(),
                None => false,
            }) ==> r == Err::<usize, CatalogError>(CatalogError::NotFound) && *final(self)
                == *old(self),
            !old(self).has_article_name(name@) && (match route {
                Some(x) => x < old(self).routes@.len(),
                None => true,
            }) ==> r == Ok::<usize, CatalogError>(old(self).articles@.len() as usize)
                && final(self).articles@ == old(self).articles@.push(Article { name, route })
                && final(self).points@ == old(self).points@ && final(self).routes@
                == old(self).routes@ && final(self).storages@ == old(self).storages@,
    {
        if let Ok(_) = self.find_article_by_name(&name) {
            return Err(CatalogError::DuplicateName);
        }
        if let Some(x) = route {
            if x >= self.routes.len() {
                return Err(CatalogError::NotFound);
            }
        }
        let id = self.articles.len();
        self.articles.push(Article { name, route });
        Ok(id)
    }

    /// Adds an empty storage; its index is returned.
    pub fn register_storage(&mut self, name: String) -> (r: Result<usize, CatalogError>)
        requires
            old(self).wf(),
        ensures
            final(self).wf(),
            old(self).has_storage_name(name@) ==> r == Err::<usize, CatalogError>(
                CatalogError::DuplicateName,
            ) && *final(self) == *old(self),
            !old(self).has_storage_name(name@) ==> r == Ok::<usize, CatalogError>(
                old(self).storages@.len() as usize,
            ) && final(self).storages@.len() == old(self).storages@.len() + 1
                && final(self).storages@.drop_last() == old(self).storages@
                && final(self).storages@.last().name == name
                && final(self).storages@.last().stock@.len() == 0 && final(self).points@ == old(self).points@ && final(self).routes@
                == old(self).routes@ && final(self).articles@ == old(self).articles@,
    {
        match self.find_storage_by_name(&name) {
            Ok(_) => Err(CatalogError::DuplicateName),
            Err(_) => {
                let id = self.storages.len();
                self.storages.push(Storage { name, stock: Vec::new() });
                Ok(id)
            },
        }
    }
    /// Records `quantity` units of `article` in `storage`, replacing any
    /// quantity recorded before for that article.
    pub fn set_storage_quantity(&mut self, storage: usize, article: usize, quantity: u64) -> (r:
        Result<(), CatalogError>)
        requires
            old(self).wf(),
        ensures
            final(self).wf(),
            (storage >= old(self).storages@.len() || article >= old(self).articles@.len()) ==> r
                == Err::<(), CatalogError>(CatalogError::NotFound) && *final(self) == *old(self),
            (storage < old(self).storages@.len() && article < old(self).articles@.len()) ==> r
                == Ok::<(), CatalogError>(()),
            final(self).points@ == old(self).points@,
            final(self).routes@ == old(self).routes@,
            final(self).articles@ == old(self).articles@,
            final(self).storages@.len() == old(self).storages@.len(),
            forall|s: int|
                0 <= s < final(self).storages@.len() ==> (#[trigger] final(self).storages@[s]).name
                    == old(self).storages@[s].name,
            forall|s: int, a: usize|
                0 <= s < final(self).storages@.len() ==> #[trigger] final(self).stored(s, a) == if s
                    == storage && a == article && r is Ok {
                    quantity as nat
                } else {
                    old(self).stored(s, a)
                },
    {
        if storage >= self.storages.len() || article >= self.articles.len() {
            return Err(CatalogError::NotFound);
        }
        let ghost before = self.storages@[storage as int].stock@;
        let mut st = self.storages.remove(storage);
        let mut i: usize = 0;
        while i < st.stock.len() && st.stock[i].0 != article
            invariant
                st.stock@ == before,
                i <= before.len(),
                forall|j: int| 0 <= j < i ==> before[j].0 != article,
            decreases before.len() - i,
        {
            i = i + 1;
        }
        let found = i < st.stock.len();
        if found {
            st.stock.set(i, (article, quantity));
            proof {
                let after = st.stock@;
                assert(after[i as int].0 == article);
                assert(keys_unique(after));
                assert forall|a: usize| quantity_in(after, a) == if a == article {
                    quantity as nat
                } else {
                    quantity_in(before, a)
                } by {
                    if a == article {
                        let k = choose|k: int| 0 <= k < after.len() && after[k].0 == a;
                        assert(k == i);
                    } else {
                        if exists|k: int| 0 <= k < before.len() && before[k].0 == a {
                            let k = choose|k: int| 0 <= k < before.len() && before[k].0 == a;
                            assert(after[k].0 == a);
                            let k2 = choose|k: int| 0 <= k < after.len() && after[k].0 == a;
                            assert(k == k2);
                        } else {
                            assert forall|k: int| 0 <= k < after.len() implies after[k].0 != a by {
                                if k != i {
                                    assert(after[k] == before[k]);
                                }
                            }
                        }
                    }
                }
            }
        } else {
            st.stock.push((article, quantity));
            proof {
                let after = st.stock@;
                assert forall|a: usize| quantity_in(after, a) == if a == article {
                    quantity as nat
                } else {
                    quantity_in(before, a)
                } by {
                    if a == article {
                        let k = choose|k: int| 0 <= k < after.len() && after[k].0 == a;
                        assert(after[before.len() as int].0 == a);
                        assert(k == before.len());
                        assert(keys_unique(after));
                    } else {
                        if exists|k: int| 0 <= k < before.len() && before[k].0 == a {
                            let k = choose|k: int| 0 <= k < before.len() && before[k].0 == a;
                            assert(after[k].0 == a);
                            let k2 = choose|k: int| 0 <= k < after.len() && after[k].0 == a;
                            assert(k == k2);
                        } else {
                            assert forall|k: int| 0 <= k < after.len() implies after[k].0 != a by {
                                if k < before.len() {
                                    assert(after[k] == before[k]);
                                }
                            }
                        }
                    }
                }
            }
        }
        self.storages.insert(storage, st);
        proof {
            assert forall|s: int| 0 <= s < self.storages@.len() && s != storage implies
                self.storages@[s] == old(self).storages@[s] by {}
        }
        Ok(())
    }
    /// Number of composition requirements of article `x`.
    pub fn requirement_count(&self, x: usize) -> (r: usize)
        requires
            self.wf(),
            x < self.articles@.len(),
        ensures
            r == requirements_of(self, x as int).len(),
    {
        match self.articles[x].route {
            Some(route) => match &self.points[self.routes[route].point_a].condition {
                Some(v) => v.len(),
                None => 0,
            },
            None => 0,
        }
    }

    /// The `k`-th composition requirement of article `x`.
    pub fn requirement_at(&self, x: usize, k: usize) -> (r: Requirement)
        requires
            self.wf(),
            x < self.articles@.len(),
            k < requirements_of(self, x as int).len(),
        ensures
            r == requirements_of(self, x as int)[k as int],
    {
        let route = self.articles[x].route.unwrap();
        let reqs = self.points[self.routes[route].point_a].condition.as_ref().unwrap();
        reqs[k]
    }
}

} // verus!
