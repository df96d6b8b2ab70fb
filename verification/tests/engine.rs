use topictrend::date::Date;
use topictrend::delta::DeltaService;
use topictrend::graphbuilder::GraphBuilder;
use topictrend::pageview_engine::PageViewEngine;
use topictrend::wikigraph::WikiGraph;

// Articles {A1:1, A2:2, A3:3, A4:4}, categories {C1:1, C2:2, C3:3},
// hierarchy C1->C2, C2->C3, C3->C1 (a cycle), membership A1,A2 in C1,
// A3 in C2, A4 in C3.
fn scenario_graph() -> WikiGraph {
    let builder = GraphBuilder::new("testwiki");
    builder.build(
        vec![1, 2, 3],
        vec![1, 2, 3, 4],
        vec![(1, 2), (2, 3), (3, 1)],
        vec![(1, 1), (2, 1), (3, 2), (4, 3)],
    )
}

fn bitmap_sorted(bm: &roaring::RoaringBitmap) -> Vec<u32> {
    bm.iter().collect()
}

fn d(year: u16, month: u8, day: u8) -> Date {
    Date::new(year, month, day).unwrap()
}

#[test]
fn membership_depth_zero() {
    let g = scenario_graph();
    let bm = g.get_articles_in_category(1, 0).unwrap();
    assert_eq!(bitmap_sorted(&bm), vec![1, 2]);
}

#[test]
fn membership_depth_one() {
    let g = scenario_graph();
    let bm = g.get_articles_in_category(1, 1).unwrap();
    assert_eq!(bitmap_sorted(&bm), vec![1, 2, 3]);
}

#[test]
fn membership_depth_unbounded() {
    let g = scenario_graph();
    let bm = g.get_articles_in_category(1, 255).unwrap();
    assert_eq!(bitmap_sorted(&bm), vec![1, 2, 3, 4]);
}

#[test]
fn membership_unknown_category_is_empty() {
    let g = scenario_graph();
    let bm = g.get_articles_in_category(99, 255).unwrap();
    assert!(bitmap_sorted(&bm).is_empty());
}

#[test]
fn hierarchy_edges_both_directions() {
    let g = scenario_graph();
    assert_eq!(g.get_child_categories(1).unwrap(), vec![2]);
    assert_eq!(g.get_child_categories(2).unwrap(), vec![3]);
    assert_eq!(g.get_child_categories(3).unwrap(), vec![1]);
    assert_eq!(g.get_parent_categories(2).unwrap(), vec![1]);
    assert_eq!(g.get_parent_categories(3).unwrap(), vec![2]);
    assert_eq!(g.get_parent_categories(1).unwrap(), vec![3]);
}

#[test]
fn membership_both_directions() {
    let g = scenario_graph();
    assert_eq!(g.get_categories_for_article(1).unwrap(), vec![1]);
    assert_eq!(g.get_categories_for_article(3).unwrap(), vec![2]);
    assert_eq!(g.get_categories_for_article(9).unwrap(), Vec::<u32>::new());
}

#[test]
fn cycle_traversal_visits_each_once() {
    let g = scenario_graph();
    for start in [1u32, 2, 3] {
        let desc = g.get_descendant_categories(start, 255).unwrap();
        let mut qids: Vec<u32> = desc.iter().map(|p| p.0).collect();
        qids.sort();
        let mut expected: Vec<u32> = vec![1, 2, 3];
        expected.retain(|q| *q != start);
        assert_eq!(qids, expected);
    }
}

#[test]
fn descendant_depths_recorded() {
    let g = scenario_graph();
    let desc = g.get_descendant_categories(1, 255).unwrap();
    assert_eq!(desc, vec![(2, 1), (3, 2)]);
}

#[test]
fn dense_id_round_trip_and_bounds() {
    let g = scenario_graph();
    for q in [1u32, 2, 3] {
        let dense = g.cat_original_to_dense.get(q).unwrap();
        assert!((dense as usize) < g.cat_dense_to_original.len());
        assert_eq!(g.cat_dense_to_original[dense as usize], q);
    }
    for q in [1u32, 2, 3, 4] {
        let dense = g.art_original_to_dense.get(q).unwrap();
        assert!((dense as usize) < g.art_dense_to_original.len());
        assert_eq!(g.art_dense_to_original[dense as usize], q);
    }
    assert_eq!(g.cat_original_to_dense.get(4), None);
}

#[test]
fn monotone_membership_under_depth() {
    let g = scenario_graph();
    let mut previous: Vec<u32> = Vec::new();
    for depth in 0u8..=4 {
        let current = bitmap_sorted(&g.get_articles_in_category(1, depth).unwrap());
        for a in &previous {
            assert!(current.contains(a));
        }
        previous = current;
    }
}

#[test]
fn category_trend_by_depth() {
    let g = scenario_graph();
    let mut engine = PageViewEngine::new("testwiki", g);
    let day = d(2032, 10, 12);
    assert!(engine.insert_day(day, vec![100, 200, 300, 600]));
    assert_eq!(engine.get_category_trend(1, 0, day, day), vec![(day, 300)]);
    assert_eq!(engine.get_category_trend(1, 1, day, day), vec![(day, 600)]);
    assert_eq!(engine.get_category_trend(1, 255, day, day), vec![(day, 1200)]);
}

#[test]
fn category_trend_missing_day_counts_zero() {
    let g = scenario_graph();
    let mut engine = PageViewEngine::new("testwiki", g);
    let day1 = d(2032, 10, 12);
    let day2 = d(2032, 10, 13);
    assert!(engine.insert_day(day1, vec![100, 200, 300, 600]));
    assert_eq!(
        engine.get_category_trend(1, 0, day1, day2),
        vec![(day1, 300), (day2, 0)]
    );
}

#[test]
fn category_trend_empty_cases() {
    let g = scenario_graph();
    let engine = PageViewEngine::new("testwiki", g);
    let day = d(2032, 10, 12);
    // Unknown category and inverted window both yield nothing.
    assert!(engine.get_category_trend(99, 0, day, day).is_empty());
    assert!(engine
        .get_category_trend(1, 0, d(2032, 10, 13), day)
        .is_empty());
}

#[test]
fn article_trend_single_article() {
    let g = scenario_graph();
    let mut engine = PageViewEngine::new("testwiki", g);
    let day1 = d(2032, 10, 12);
    let day2 = d(2032, 10, 13);
    engine.insert_day(day1, vec![100, 200, 300, 600]);
    engine.insert_day(day2, vec![150, 0, 0, 0]);
    assert_eq!(
        engine.get_article_trend(1, day1, day2),
        vec![(day1, 100), (day2, 150)]
    );
    assert!(engine.get_article_trend(99, day1, day2).is_empty());
}

#[test]
fn short_day_vector_reads_zero_past_end() {
    let g = scenario_graph();
    let mut engine = PageViewEngine::new("testwiki", g);
    let day = d(2032, 10, 12);
    // Too short: the mismatch is reported but the vector is adopted.
    assert!(!engine.insert_day(day, vec![100, 200]));
    assert_eq!(engine.get_category_trend(3, 0, day, day), vec![(day, 0)]);
    assert_eq!(engine.get_category_trend(1, 0, day, day), vec![(day, 300)]);
}

#[test]
fn top_categories_direct_membership_with_tie_break() {
    let g = scenario_graph();
    let mut engine = PageViewEngine::new("testwiki", g);
    let day = d(2032, 10, 12);
    engine.insert_day(day, vec![100, 200, 300, 600]);
    let today = d(2032, 10, 12);
    let ranks = engine.get_top_categories(day, day, 10, 1_000, today);
    let summary: Vec<(u32, u64)> = ranks.iter().map(|r| (r.category_qid, r.total_views)).collect();
    // Direct membership only: C1 = 300, C2 = 300, C3 = 600; the tie between
    // C1 and C2 goes to the earlier (dense-id) category.
    assert_eq!(summary, vec![(3, 600), (1, 300), (2, 300)]);
    assert_eq!(ranks[0].top_articles.len(), 1);
    assert_eq!(ranks[0].top_articles[0].article_qid, 4);
    assert_eq!(ranks[0].top_articles[0].total_views, 600);
}

#[test]
fn top_categories_limit_and_zero_exclusion() {
    let g = scenario_graph();
    let mut engine = PageViewEngine::new("testwiki", g);
    let day = d(2032, 10, 12);
    engine.insert_day(day, vec![100, 0, 0, 600]);
    let today = d(2032, 10, 12);
    let ranks = engine.get_top_categories(day, day, 1, 1_000, today);
    assert_eq!(ranks.len(), 1);
    assert_eq!(ranks[0].category_qid, 3);
    let all = engine.get_top_categories(day, day, 10, 1_000, today);
    // C2 has zero views and is excluded.
    let qids: Vec<u32> = all.iter().map(|r| r.category_qid).collect();
    assert_eq!(qids, vec![3, 1]);
}

#[test]
fn top_articles_in_category_ranked() {
    let g = scenario_graph();
    let mut engine = PageViewEngine::new("testwiki", g);
    let day = d(2032, 10, 12);
    engine.insert_day(day, vec![100, 200, 300, 600]);
    let rank = engine.get_top_articles_in_category(1, day, day, 255, 2);
    assert_eq!(rank.category_qid, 1);
    let arts: Vec<(u32, u64)> = rank.top_articles.iter().map(|a| (a.article_qid, a.total_views)).collect();
    assert_eq!(arts, vec![(4, 600), (3, 300)]);
    // The rank's own total sums only the listed articles.
    assert_eq!(rank.total_views, 900);
}

#[test]
fn top_categories_cache_hit_and_expiry() {
    let g = scenario_graph();
    let mut engine = PageViewEngine::new("testwiki", g);
    let day = d(2032, 10, 12);
    let today = d(2032, 10, 13);  // end is within one day: TTL 15 minutes
    engine.insert_day(day, vec![100, 200, 300, 600]);
    let first = engine.get_top_categories(day, day, 10, 1_000, today);
    assert_eq!(first[0].category_qid, 3);
    // Change the data; a fresh cache entry keeps answering the old way.
    engine.insert_day(day, vec![5000, 0, 0, 0]);
    let second = engine.get_top_categories(day, day, 10, 1_500, today);
    let s2: Vec<(u32, u64)> = second.iter().map(|r| (r.category_qid, r.total_views)).collect();
    assert_eq!(s2, vec![(3, 600), (1, 300), (2, 300)]);
    // Past the 900-second TTL the ranking is recomputed.
    let third = engine.get_top_categories(day, day, 10, 1_000 + 901, today);
    let s3: Vec<(u32, u64)> = third.iter().map(|r| (r.category_qid, r.total_views)).collect();
    assert_eq!(s3, vec![(1, 5000)]);
}

#[test]
fn cache_clear_forces_recompute() {
    let g = scenario_graph();
    let mut engine = PageViewEngine::new("testwiki", g);
    let day = d(2032, 10, 12);
    let today = d(2032, 10, 13);
    engine.insert_day(day, vec![100, 200, 300, 600]);
    let _ = engine.get_top_categories(day, day, 10, 1_000, today);
    engine.insert_day(day, vec![5000, 0, 0, 0]);
    engine.clear_top_categories_cache();
    let fresh = engine.get_top_categories(day, day, 10, 1_001, today);
    assert_eq!(fresh[0].category_qid, 1);
    assert_eq!(fresh[0].total_views, 5000);
}

#[test]
fn article_delta_scenario() {
    let g = scenario_graph();
    let mut engine = PageViewEngine::new("testwiki", g);
    let day1 = d(2032, 10, 12);
    let day2 = d(2032, 10, 13);
    engine.insert_day(day1, vec![100, 0, 0, 0]);
    engine.insert_day(day2, vec![150, 0, 0, 0]);
    let items = DeltaService::get_article_delta(&engine, 1, day1, day1, day2, day2, 100, 0);
    assert_eq!(items.len(), 1);
    assert_eq!(items[0].article_qid, 1);
    assert_eq!(items[0].baseline_views, 100);
    assert_eq!(items[0].impact_views, 150);
    assert_eq!(items[0].delta_magnitude, 50);
}

#[test]
fn category_delta_orders_by_magnitude() {
    let g = scenario_graph();
    let mut engine = PageViewEngine::new("testwiki", g);
    let day1 = d(2032, 10, 12);
    let day2 = d(2032, 10, 13);
    engine.insert_day(day1, vec![100, 200, 300, 600]);
    engine.insert_day(day2, vec![100, 200, 200, 0]);
    let items = DeltaService::get_category_delta(&engine, day1, day1, day2, day2, 10, 0);
    let rows: Vec<(u32, u64, u64, u64)> = items
        .iter()
        .map(|it| (it.category_qid, it.baseline_views, it.impact_views, it.delta_magnitude))
        .collect();
    // C3 drops by 600, C2 by 100, C1 is unchanged.
    assert_eq!(
        rows,
        vec![(3, 600, 0, 600), (2, 300, 200, 100), (1, 300, 300, 0)]
    );
}

#[test]
fn top_categories_now_runs_against_clock() {
    let g = scenario_graph();
    let mut engine = PageViewEngine::new("testwiki", g);
    let day = d(2032, 10, 12);
    engine.insert_day(day, vec![100, 200, 300, 600]);
    let ranks = engine.get_top_categories_now(day, day, 10);
    assert_eq!(ranks[0].category_qid, 3);
}
