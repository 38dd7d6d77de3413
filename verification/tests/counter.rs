use lommix_blog::dates::date_string;
use lommix_blog::db::{day_bucket, pad, schema_sql, select_sql, upsert_sql, CounterTable, Stats};

const DAY: i64 = 86400;

#[test]
fn day_bucket_is_utc_midnight() {
    assert_eq!(day_bucket(0), 0);
    assert_eq!(day_bucket(5), 0);
    assert_eq!(day_bucket(DAY), DAY);
    assert_eq!(day_bucket(DAY + 1), DAY);
    assert_eq!(day_bucket(2 * DAY - 1), DAY);
    assert_eq!(day_bucket(1709164800 + 12 * 3600), 1709164800);
}

#[test]
fn same_day_increments_accumulate_in_one_row() {
    let mut table = CounterTable::new();
    for _ in 0..5 {
        table.inc("home", 100 + DAY);
    }
    assert_eq!(table.0.len(), 1);
    assert_eq!(table.0[0].page, "home");
    assert_eq!(table.0[0].clicks, 5);
    assert_eq!(table.0[0].date, DAY);
}

#[test]
fn different_days_make_distinct_rows() {
    let mut table = CounterTable::new();
    table.inc("home", 50);
    table.inc("home", DAY + 50);
    assert_eq!(table.0.len(), 2);
    assert_eq!(table.0[0].clicks, 1);
    assert_eq!(table.0[0].date, 0);
    assert_eq!(table.0[1].clicks, 1);
    assert_eq!(table.0[1].date, DAY);
}

#[test]
fn different_pages_make_distinct_rows() {
    let mut table = CounterTable::new();
    table.inc("home", 10);
    table.inc("blog", 20);
    table.inc("home", 30);
    assert_eq!(table.0.len(), 2);
    assert_eq!(table.0[0].page, "home");
    assert_eq!(table.0[0].clicks, 2);
    assert_eq!(table.0[1].page, "blog");
    assert_eq!(table.0[1].clicks, 1);
}

#[test]
fn stats_caps_rows_and_sorts_by_day_descending() {
    let mut table = CounterTable::new();
    for d in 0..70i64 {
        table.inc("home", d * DAY + 1);
    }
    let report = table.stats(60);
    assert_eq!(report.len(), 60);
    for w in report.windows(2) {
        assert!(w[0].date >= w[1].date);
    }
    assert_eq!(report[0].date, 69 * DAY);
    assert_eq!(report[59].date, 10 * DAY);

    let small = table.stats(3);
    assert_eq!(small.len(), 3);
    assert_eq!(small[0].date, 69 * DAY);

    let all = table.stats(1000);
    assert_eq!(all.len(), 70);
}

#[test]
fn stats_of_an_empty_table_is_empty() {
    let table = CounterTable::new();
    assert_eq!(table.stats(60).len(), 0);
}

#[test]
fn persisted_upsert_counts_one_row_per_day() {
    let conn = rusqlite::Connection::open_in_memory().unwrap();
    conn.execute(&schema_sql(), ()).unwrap();
    for _ in 0..6 {
        conn.execute(&upsert_sql(), ("home", DAY)).unwrap();
    }
    conn.execute(&upsert_sql(), ("home", 2 * DAY)).unwrap();
    let rows: i64 = conn
        .query_row("SELECT COUNT(*) FROM clicks;", (), |row| row.get(0))
        .unwrap();
    assert_eq!(rows, 2);
    let count: i64 = conn
        .query_row(
            "SELECT count FROM clicks WHERE page = ?1 AND date = ?2;",
            ("home", DAY),
            |row| row.get(0),
        )
        .unwrap();
    assert_eq!(count, 6);
}

#[test]
fn persisted_select_orders_by_day_descending() {
    let conn = rusqlite::Connection::open_in_memory().unwrap();
    conn.execute(&schema_sql(), ()).unwrap();
    for d in [3i64, 1, 4, 2] {
        conn.execute(&upsert_sql(), ("home", d * DAY)).unwrap();
    }
    let mut stmt = conn.prepare(&select_sql()).unwrap();
    let dates: Vec<i64> = stmt
        .query_map((), |row| row.get::<_, i64>(3))
        .unwrap()
        .map(|r| r.unwrap())
        .collect();
    assert_eq!(dates, vec![4 * DAY, 3 * DAY, 2 * DAY, DAY]);
}

#[test]
fn concurrent_increments_lose_no_update() {
    let conn = rusqlite::Connection::open_in_memory().unwrap();
    conn.execute(&schema_sql(), ()).unwrap();
    let pool = deadpool::unmanaged::Pool::from(vec![conn]);
    let rt = tokio::runtime::Builder::new_multi_thread()
        .worker_threads(4)
        .build()
        .unwrap();
    rt.block_on(async {
        let mut handles = Vec::new();
        for _ in 0..10 {
            let pool = pool.clone();
            handles.push(tokio::spawn(async move {
                let conn = pool.get().await.unwrap();
                conn.execute(&upsert_sql(), ("home", DAY)).unwrap();
            }));
        }
        for h in handles {
            h.await.unwrap();
        }
    });
    let conn = pool.try_get().unwrap();
    let count: i64 = conn
        .query_row(
            "SELECT count FROM clicks WHERE page = ?1 AND date = ?2;",
            ("home", DAY),
            |row| row.get(0),
        )
        .unwrap();
    assert_eq!(count, 10);
}

#[test]
fn stats_with_limit_zero_is_empty() {
    let mut table = CounterTable::new();
    table.inc("home", 5);
    assert_eq!(table.stats(0).len(), 0);
}

#[test]
fn increment_counts_todays_visit() {
    let mut table = CounterTable::new();
    table.increment("home");
    // with any clock at or after the epoch, exactly one visit is counted
    assert!(table.0.len() <= 1);
    if table.0.len() == 1 {
        assert_eq!(table.0[0].page, "home");
        assert_eq!(table.0[0].clicks, 1);
        assert_eq!(table.0[0].date % 86400, 0);
    }
}

#[test]
fn pad_fills_short_text_with_spaces() {
    assert_eq!(pad("ab", 5), "ab   ");
    assert_eq!(pad("abcdef", 3), "abcdef");
    assert_eq!(pad("", 2), "  ");
    assert_eq!(pad("xyz", 3), "xyz");
}

#[test]
fn date_string_writes_the_calendar_day() {
    assert_eq!(date_string(0), "1970-01-01");
    assert_eq!(date_string(DAY), "1970-01-02");
    assert_eq!(date_string(1709164800), "2024-02-29");
    assert_eq!(date_string(1704067200), "2024-01-01");
    assert_eq!(date_string(-1), "date format failed");
}

#[test]
fn display_line_is_fixed_width() {
    let row = Stats { page: "home".to_string(), clicks: 3, date: DAY };
    let expected = format!("{}:{} count:[{}]", pad("home", 35), pad("1970-01-02", 12), 3);
    assert_eq!(row.display_line(), expected);
}
