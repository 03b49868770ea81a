use gpao::catalog::{Catalog, Requirement};
use gpao::depgraph::DependencyGraph;
use gpao::scheduler::{earliest_available, ScheduleResult, SchedulingError, Source};

/// Article 2 is assembled along a route of the given timing from one unit
/// each of article 0 (ready 2 days after the request) and article 1 (ready 5
/// days after). One storage, initially empty.
fn assembly(duration: Option<u64>, start: Option<u64>) -> Catalog {
    let mut c = Catalog::new();
    let src = c.register_point(String::from("supplier")).unwrap();
    let out = c.register_point(String::from("plant")).unwrap();
    let reqs = vec![Requirement { article: 0, quantity: 1 }, Requirement { article: 1, quantity: 1 }];
    let station = c.register_conditional_point(String::from("assembly"), Some(reqs)).unwrap();
    let ra = c.register_route(src, out, Some(2), None).unwrap();
    let rb = c.register_route(src, out, Some(5), None).unwrap();
    let rr = c.register_route(station, out, duration, start).unwrap();
    c.register_article(String::from("a"), Some(ra)).unwrap();
    c.register_article(String::from("b"), Some(rb)).unwrap();
    c.register_article(String::from("r"), Some(rr)).unwrap();
    c.register_storage(String::from("store")).unwrap();
    c
}

#[test]
fn composition_joins_at_the_latest_input() {
    let c = assembly(Some(1), None);
    let g = DependencyGraph::build(&c).unwrap();
    let r = earliest_available(&g, &c, 2, 1, &vec![0], 100).unwrap();
    assert_eq!(
        r,
        ScheduleResult { date: 106, source: Source::Production, route: Some(2), chain: vec![2, 1] }
    );
}

#[test]
fn stock_short_circuits_production() {
    let mut c = assembly(Some(1), None);
    c.set_storage_quantity(0, 2, 4).unwrap();
    let g = DependencyGraph::build(&c).unwrap();
    let r = earliest_available(&g, &c, 2, 4, &vec![0], 100).unwrap();
    assert_eq!(r, ScheduleResult { date: 100, source: Source::Inventory, route: None, chain: vec![2] });
    let r = earliest_available(&g, &c, 2, 5, &vec![0], 100).unwrap();
    assert_eq!(r.date, 106);
    assert_eq!(r.source, Source::Production);
}

#[test]
fn stocked_input_is_ready_at_request_time() {
    let mut c = assembly(Some(1), None);
    c.set_storage_quantity(0, 1, 1).unwrap();
    let g = DependencyGraph::build(&c).unwrap();
    let r = earliest_available(&g, &c, 2, 1, &vec![0], 100).unwrap();
    assert_eq!(r.date, 103);
    assert_eq!(r.chain, vec![2, 0]);
}

#[test]
fn fixed_start_without_duration_ignores_request_time() {
    let c = assembly(None, Some(40));
    let g = DependencyGraph::build(&c).unwrap();
    let r = earliest_available(&g, &c, 2, 1, &vec![0], 100).unwrap();
    assert_eq!(r.date, 40);
    assert_eq!(r.chain, vec![2]);
    assert_eq!(earliest_available(&g, &c, 2, 1, &vec![0], 7).unwrap().date, 40);
}

#[test]
fn fixed_start_with_duration() {
    let c = assembly(Some(3), Some(40));
    let g = DependencyGraph::build(&c).unwrap();
    assert_eq!(earliest_available(&g, &c, 2, 1, &vec![0], 100).unwrap().date, 43);
}

#[test]
fn no_timing_is_ready_with_inputs() {
    let c = assembly(None, None);
    let g = DependencyGraph::build(&c).unwrap();
    assert_eq!(earliest_available(&g, &c, 2, 1, &vec![0], 100).unwrap().date, 105);
}

#[test]
fn duration_only_without_inputs() {
    let c = assembly(Some(1), None);
    let g = DependencyGraph::build(&c).unwrap();
    assert_eq!(earliest_available(&g, &c, 1, 3, &vec![0], 100).unwrap().date, 105);
    assert_eq!(earliest_available(&g, &c, 0, 3, &vec![], 0).unwrap().date, 2);
}

#[test]
fn no_route_and_no_stock_is_unproducible() {
    let mut c = Catalog::new();
    c.register_article(String::from("ore"), None).unwrap();
    c.register_storage(String::from("yard")).unwrap();
    let g = DependencyGraph::build(&c).unwrap();
    assert_eq!(earliest_available(&g, &c, 0, 1, &vec![0], 9), Err(SchedulingError::Unproducible(0)));
    c.set_storage_quantity(0, 0, 1).unwrap();
    assert_eq!(earliest_available(&g, &c, 0, 1, &vec![0], 9).unwrap().date, 9);
    assert_eq!(earliest_available(&g, &c, 0, 0, &vec![], 9).unwrap().source, Source::Inventory);
}

#[test]
fn unproducible_input_fails_the_assembly() {
    let mut c = Catalog::new();
    let reqs = vec![Requirement { article: 1, quantity: 2 }];
    let station = c.register_conditional_point(String::from("assembly"), Some(reqs)).unwrap();
    let out = c.register_point(String::from("out")).unwrap();
    let r = c.register_route(station, out, Some(1), None).unwrap();
    c.register_article(String::from("frame"), Some(r)).unwrap();
    c.register_article(String::from("tube"), None).unwrap();
    let g = DependencyGraph::build(&c).unwrap();
    assert_eq!(earliest_available(&g, &c, 0, 1, &vec![], 0), Err(SchedulingError::Unproducible(1)));
}

#[test]
fn unknown_article_or_storage_is_not_found() {
    let c = assembly(Some(1), None);
    let g = DependencyGraph::build(&c).unwrap();
    assert_eq!(earliest_available(&g, &c, 3, 1, &vec![0], 0), Err(SchedulingError::NotFound));
    assert_eq!(earliest_available(&g, &c, 0, 1, &vec![1], 0), Err(SchedulingError::NotFound));
}

#[test]
fn date_past_the_largest_is_an_overflow() {
    let c = assembly(Some(1), None);
    let g = DependencyGraph::build(&c).unwrap();
    assert_eq!(
        earliest_available(&g, &c, 2, 1, &vec![0], u64::MAX - 5),
        Err(SchedulingError::DateOverflow)
    );
    assert_eq!(earliest_available(&g, &c, 2, 1, &vec![0], u64::MAX - 6).unwrap().date, u64::MAX);
}

#[test]
fn equal_inputs_pick_the_first_as_critical() {
    let mut c = Catalog::new();
    let src = c.register_point(String::from("supplier")).unwrap();
    let out = c.register_point(String::from("plant")).unwrap();
    let reqs = vec![Requirement { article: 0, quantity: 1 }, Requirement { article: 1, quantity: 1 }];
    let station = c.register_conditional_point(String::from("station"), Some(reqs)).unwrap();
    let ra = c.register_route(src, out, Some(4), None).unwrap();
    let rr = c.register_route(station, out, None, None).unwrap();
    c.register_article(String::from("a"), Some(ra)).unwrap();
    c.register_article(String::from("b"), Some(ra)).unwrap();
    c.register_article(String::from("r"), Some(rr)).unwrap();
    let g = DependencyGraph::build(&c).unwrap();
    let r = earliest_available(&g, &c, 2, 1, &vec![], 10).unwrap();
    assert_eq!(r.date, 14);
    assert_eq!(r.chain, vec![2, 0]);
}

#[test]
fn shared_input_across_levels() {
    // d <- b, d <- c, b <- a, c <- a: a is reached twice.
    let mut c = Catalog::new();
    let src = c.register_point(String::from("src")).unwrap();
    let out = c.register_point(String::from("out")).unwrap();
    let pb = c
        .register_conditional_point(String::from("pb"), Some(vec![Requirement { article: 0, quantity: 1 }]))
        .unwrap();
    let pd = c
        .register_conditional_point(
            String::from("pd"),
            Some(vec![Requirement { article: 1, quantity: 1 }, Requirement { article: 2, quantity: 1 }]),
        )
        .unwrap();
    let ra = c.register_route(src, out, Some(3), None).unwrap();
    let rb = c.register_route(pb, out, Some(1), None).unwrap();
    let rc = c.register_route(pb, out, Some(2), None).unwrap();
    let rd = c.register_route(pd, out, Some(1), None).unwrap();
    c.register_article(String::from("a"), Some(ra)).unwrap();
    c.register_article(String::from("b"), Some(rb)).unwrap();
    c.register_article(String::from("c"), Some(rc)).unwrap();
    c.register_article(String::from("d"), Some(rd)).unwrap();
    let g = DependencyGraph::build(&c).unwrap();
    let r = earliest_available(&g, &c, 3, 1, &vec![], 0).unwrap();
    assert_eq!(r.date, 6);
    assert_eq!(r.chain, vec![3, 2, 0]);
}
