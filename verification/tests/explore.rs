use brostorian::aggregate::{aggregate, Aggregator, ExploreError};
use brostorian::classify::{classify, ClassifiedTarget};
use brostorian::rank::rank;
use brostorian::report::report;
use brostorian::totals::RankedEntry;
use brostorian::{explore, HistoryRow};

fn row(id: i64, url: &str, visits: i64) -> HistoryRow {
    HistoryRow {
        id,
        url: url.to_string(),
        title: String::new(),
        visit_count: visits,
        typed_count: 0,
        last_visit_time: 0,
        hidden: 0,
    }
}

fn bar() -> String {
    "-".repeat(80)
}

#[test]
fn classify_https_url_is_domain() {
    let t = classify("https://a.com/x");
    assert!(matches!(t, Some(ClassifiedTarget::Domain(d)) if d == "a.com"));
}

#[test]
fn classify_normalizes_host_case() {
    let t = classify("HTTPS://A.COM/x");
    assert!(matches!(t, Some(ClassifiedTarget::Domain(d)) if d == "a.com"));
}

#[test]
fn classify_file_url_is_local_path() {
    let t = classify("file:///tmp/x");
    assert!(matches!(t, Some(ClassifiedTarget::LocalPath(p)) if p == "/tmp/x"));
}

#[test]
fn classify_ip_host_is_local_path() {
    let t = classify("https://127.0.0.1/index.html");
    assert!(matches!(t, Some(ClassifiedTarget::LocalPath(p)) if p == "/index.html"));
}

#[test]
fn classify_rejects_invalid_url() {
    assert!(classify("not a url").is_none());
}

#[test]
fn aggregate_weights_and_merges_domains() {
    let rows = vec![
        row(1, "https://a.com/x", 3),
        row(2, "https://b.com/y", 5),
        row(3, "https://a.com/z", 2),
    ];
    let (domains, locals) = aggregate(&rows).unwrap();
    assert_eq!(domains.len(), 2);
    assert_eq!(locals.len(), 0);
    assert_eq!(domains.total_of("a.com"), 5);
    assert_eq!(domains.total_of("b.com"), 5);
    assert_eq!(domains.total_of("c.com"), 0);
}

#[test]
fn rank_breaks_count_ties_by_descending_key() {
    let rows = vec![
        row(1, "https://a.com/x", 3),
        row(2, "https://b.com/y", 5),
        row(3, "https://a.com/z", 2),
    ];
    let (domains, _locals) = aggregate(&rows).unwrap();
    let ranked = rank(domains);
    assert_eq!(ranked.len(), 2);
    assert_eq!(ranked[0].key, "b.com");
    assert_eq!(ranked[0].total, 5);
    assert_eq!(ranked[1].key, "a.com");
    assert_eq!(ranked[1].total, 5);
}

#[test]
fn rank_orders_by_descending_count_first() {
    let rows = vec![
        row(1, "https://low.example/x", 1),
        row(2, "https://high.example/y", 9),
        row(3, "https://mid.example/z", 4),
    ];
    let (domains, _locals) = aggregate(&rows).unwrap();
    let ranked = rank(domains);
    assert_eq!(ranked[0].key, "high.example");
    assert_eq!(ranked[1].key, "mid.example");
    assert_eq!(ranked[2].key, "low.example");
}

#[test]
fn local_paths_rank_by_descending_key_on_equal_counts() {
    let rows = vec![row(1, "file:///tmp/x", 1), row(2, "file:///tmp/y", 1)];
    let (domains, locals) = aggregate(&rows).unwrap();
    assert_eq!(domains.len(), 0);
    assert_eq!(locals.total_of("/tmp/x"), 1);
    assert_eq!(locals.total_of("/tmp/y"), 1);
    let ranked = rank(locals);
    assert_eq!(ranked.len(), 2);
    assert_eq!(ranked[0].key, "/tmp/y");
    assert_eq!(ranked[0].total, 1);
    assert_eq!(ranked[1].key, "/tmp/x");
    assert_eq!(ranked[1].total, 1);
}

#[test]
fn negative_visit_count_aborts_the_run() {
    let rows = vec![row(1, "https://a.com/x", 3), row(7, "https://b.com/y", -1)];
    let r = explore(&rows, 10);
    assert!(matches!(
        r,
        Err(ExploreError::NegativeCountError { id: 7, count: -1 })
    ));
}

#[test]
fn unparseable_url_aborts_after_earlier_rows() {
    let rows = vec![
        row(1, "https://a.com/x", 3),
        row(2, "https://b.com/y", 5),
        row(9, "not a url", 1),
    ];
    let r = explore(&rows, 10);
    match r {
        Err(ExploreError::ParseError { id, url }) => {
            assert_eq!(id, 9);
            assert_eq!(url, "not a url");
        }
        _ => panic!("expected a parse failure"),
    }
}

#[test]
fn negative_count_reported_before_parse_failure_on_same_row() {
    let rows = vec![row(4, "not a url", -2)];
    let r = explore(&rows, 10);
    assert!(matches!(
        r,
        Err(ExploreError::NegativeCountError { id: 4, count: -2 })
    ));
}

#[test]
fn empty_input_reports_zero_entries_for_both_groupings() {
    let rows: Vec<HistoryRow> = Vec::new();
    let text = explore(&rows, 10).unwrap();
    let expected = format!(
        "Top 10 domains:\n{}\n\nTop 10 local paths:\n{}\n\n",
        bar(),
        bar()
    );
    assert_eq!(text, expected);
}

#[test]
fn top_zero_shows_header_and_banner_only() {
    let rows = vec![row(1, "https://a.com/x", 3), row(2, "file:///tmp/x", 1)];
    let text = explore(&rows, 0).unwrap();
    let expected = format!(
        "Top 0 domains:\n{}\n\nTop 0 local paths:\n{}\n\n",
        bar(),
        bar()
    );
    assert_eq!(text, expected);
}

#[test]
fn report_lines_carry_rank_count_and_key() {
    let entries = vec![
        RankedEntry {
            key: "b.com".to_string(),
            total: 5,
        },
        RankedEntry {
            key: "a.com".to_string(),
            total: 5,
        },
    ];
    let text = report("domains", &entries, 2);
    let expected = format!(
        "Top 2 domains:\n{}\n{:3} {:6} {}\n{:3} {:6} {}\n\n",
        bar(),
        1,
        5,
        "b.com",
        2,
        5,
        "a.com"
    );
    assert_eq!(text, expected);
}

#[test]
fn report_pads_wide_ranks_and_counts() {
    let entries = vec![RankedEntry {
        key: "big.example".to_string(),
        total: 1234567,
    }];
    let text = report("domains", &entries, 5);
    let expected = format!("Top 5 domains:\n{}\n  1 1234567 big.example\n\n", bar());
    assert_eq!(text, expected);
}

#[test]
fn report_truncates_to_top_n() {
    let entries = vec![
        RankedEntry {
            key: "c.example".to_string(),
            total: 9,
        },
        RankedEntry {
            key: "b.example".to_string(),
            total: 8,
        },
        RankedEntry {
            key: "a.example".to_string(),
            total: 7,
        },
    ];
    let text = report("things", &entries, 2);
    let expected = format!(
        "Top 2 things:\n{}\n  1      9 c.example\n  2      8 b.example\n\n",
        bar()
    );
    assert_eq!(text, expected);
}

#[test]
fn explore_renders_both_groupings() {
    let rows = vec![
        row(1, "https://a.com/x", 3),
        row(2, "https://b.com/y", 5),
        row(3, "https://a.com/z", 2),
        row(4, "file:///tmp/x", 1),
        row(5, "file:///tmp/y", 1),
    ];
    let text = explore(&rows, 10).unwrap();
    let expected = format!(
        "Top 10 domains:\n{}\n  1      5 b.com\n  2      5 a.com\n\nTop 10 local paths:\n{}\n  1      1 /tmp/y\n  2      1 /tmp/x\n\n",
        bar(),
        bar()
    );
    assert_eq!(text, expected);
}

#[test]
fn weight_conservation_across_groupings() {
    let rows = vec![
        row(1, "https://a.com/x", 3),
        row(2, "file:///tmp/x", 4),
        row(3, "https://b.com/y", 5),
        row(4, "https://a.com/z", 2),
        row(5, "file:///tmp/y", 6),
    ];
    let (domains, locals) = aggregate(&rows).unwrap();
    let input_total: i64 = rows.iter().map(|r| r.visit_count).sum();
    let ranked_domains = rank(domains);
    let ranked_locals = rank(locals);
    let mut grouped_total: u64 = 0;
    for e in ranked_domains.iter().chain(ranked_locals.iter()) {
        grouped_total += e.total;
    }
    assert_eq!(grouped_total, input_total as u64);
}

#[test]
fn aggregator_folds_rows_one_at_a_time() {
    let mut agg = Aggregator::new();
    assert!(agg.push(&row(1, "https://a.com/x", 3)).is_ok());
    assert!(agg.push(&row(2, "file:///tmp/x", 2)).is_ok());
    assert_eq!(agg.weight_total(), 5);
    let bad = agg.push(&row(3, "not a url", 1));
    assert!(matches!(bad, Err(ExploreError::ParseError { id: 3, .. })));
    let (domains, locals) = agg.finish();
    assert_eq!(domains.total_of("a.com"), 3);
    assert_eq!(locals.total_of("/tmp/x"), 2);
}

#[test]
fn reranking_a_ranked_listing_changes_nothing() {
    let rows = vec![
        row(1, "https://a.com/x", 3),
        row(2, "https://b.com/y", 5),
        row(3, "https://c.com/z", 5),
    ];
    let (domains, _locals) = aggregate(&rows).unwrap();
    let once = rank(domains);
    let (domains_again, _locals_again) = aggregate(&rows).unwrap();
    let twice = rank(domains_again);
    assert_eq!(once.len(), twice.len());
    for (a, b) in once.iter().zip(twice.iter()) {
        assert_eq!(a.key, b.key);
        assert_eq!(a.total, b.total);
    }
}
