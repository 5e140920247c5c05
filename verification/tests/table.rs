use asteroidtracker::table::{
    compare_keys, next_sort_state, sort_indicator, sort_rows, Cell, ImpactTableState, SortDir,
    SortKey,
};
use asteroidtracker::text::Comparison;

fn text(s: &str) -> SortKey {
    SortKey::Text(s.to_string())
}

fn row(name: &str, n: i64) -> Vec<Cell> {
    vec![Cell::text(name.to_string()), Cell::number(n.to_string(), n)]
}

fn first_column(rows: &[Vec<Cell>]) -> Vec<String> {
    rows.iter().map(|r| r[0].display.clone()).collect()
}

#[test]
fn cells_show_and_sort() {
    let t = Cell::text("Ceres".to_string());
    assert_eq!(t.display, "Ceres");
    assert!(matches!(t.sort_key, SortKey::Text(ref s) if s == "Ceres"));
    let n = Cell::number("1,234.00".to_string(), 1234);
    assert_eq!(n.display, "1,234.00");
    assert!(matches!(n.sort_key, SortKey::Number(1234)));
}

#[test]
fn numbers_compare_by_value() {
    assert_eq!(compare_keys(&SortKey::Number(-3), &SortKey::Number(2)), Comparison::Less);
    assert_eq!(compare_keys(&SortKey::Number(7), &SortKey::Number(7)), Comparison::Equal);
    assert_eq!(compare_keys(&SortKey::Number(8), &SortKey::Number(7)), Comparison::Greater);
}

#[test]
fn texts_compare_without_case() {
    assert_eq!(compare_keys(&text("apple"), &text("Banana")), Comparison::Less);
    assert_eq!(compare_keys(&text("ABC"), &text("abc")), Comparison::Equal);
    assert_eq!(compare_keys(&text("Zeta"), &text("alpha")), Comparison::Greater);
    assert_eq!(compare_keys(&text("ÉCLAIR"), &text("éclair")), Comparison::Equal);
}

#[test]
fn numbers_come_before_texts() {
    assert_eq!(compare_keys(&SortKey::Number(i64::MAX), &text("")), Comparison::Less);
    assert_eq!(compare_keys(&text(""), &SortKey::Number(i64::MIN)), Comparison::Greater);
}

#[test]
fn clicks_step_the_sort_state() {
    let s1 = next_sort_state(None, 2);
    assert_eq!(s1, Some((2, SortDir::Asc)));
    let s2 = next_sort_state(s1, 2);
    assert_eq!(s2, Some((2, SortDir::Desc)));
    let s3 = next_sort_state(s2, 2);
    assert_eq!(s3, Some((2, SortDir::Asc)));
    assert_eq!(next_sort_state(s2, 0), Some((0, SortDir::Asc)));
    assert_eq!(next_sort_state(s1, 4), Some((4, SortDir::Asc)));
}

#[test]
fn indicators_follow_the_sort_state() {
    assert_eq!(sort_indicator(None, 0), " ↕");
    assert_eq!(sort_indicator(Some((1, SortDir::Asc)), 1), " ▲");
    assert_eq!(sort_indicator(Some((1, SortDir::Desc)), 1), " ▼");
    assert_eq!(sort_indicator(Some((1, SortDir::Asc)), 0), " ↕");
    assert_eq!(sort_indicator(Some((1, SortDir::Desc)), 2), " ↕");
}

#[test]
fn unsorted_rows_keep_their_order() {
    let rows = vec![row("b", 2), row("a", 1)];
    assert_eq!(first_column(&sort_rows(rows, None)), vec!["b", "a"]);
}

#[test]
fn rows_sort_by_text_column() {
    let rows = vec![row("beta", 2), row("Alpha", 9), row("gamma", 1), row("alpha", 5)];
    let asc = sort_rows(rows.clone(), Some((0, SortDir::Asc)));
    assert_eq!(first_column(&asc), vec!["Alpha", "alpha", "beta", "gamma"]);
    let desc = sort_rows(rows, Some((0, SortDir::Desc)));
    assert_eq!(first_column(&desc), vec!["gamma", "beta", "Alpha", "alpha"]);
}

#[test]
fn rows_sort_by_number_column() {
    let rows = vec![row("b", 2), row("a", 9), row("c", 2), row("d", -1)];
    let asc = sort_rows(rows.clone(), Some((1, SortDir::Asc)));
    assert_eq!(first_column(&asc), vec!["d", "b", "c", "a"]);
    let desc = sort_rows(rows, Some((1, SortDir::Desc)));
    assert_eq!(first_column(&desc), vec!["a", "b", "c", "d"]);
}

#[test]
fn a_single_short_row_is_left_alone() {
    let rows = vec![vec![Cell::text("only".to_string())]];
    assert_eq!(first_column(&sort_rows(rows, Some((3, SortDir::Asc)))), vec!["only"]);
}

#[test]
fn descending_reverses_ascending_for_distinct_keys() {
    let rows = vec![row("b", 20), row("a", 90), row("c", -5), row("d", 0)];
    let asc = first_column(&sort_rows(rows.clone(), Some((1, SortDir::Asc))));
    let mut desc = first_column(&sort_rows(rows, Some((1, SortDir::Desc))));
    desc.reverse();
    assert_eq!(desc, asc);
}

#[test]
fn table_state_shows_stable_sort_of_original_rows() {
    let rows = vec![
        vec![Cell::text("x".to_string()), Cell::number("2".to_string(), 2)],
        vec![Cell::text("x".to_string()), Cell::number("1".to_string(), 1)],
    ];
    let mut table = ImpactTableState::new(rows);
    assert_eq!(table.display_order(), vec![0, 1]);
    table.click(1);
    assert_eq!(table.display_order(), vec![1, 0]);
    table.click(0);
    assert_eq!(table.sort_state(), Some((0, SortDir::Asc)));
    // the earlier sort by the second column leaves no trace: the "2" row comes first
    assert_eq!(table.display_order(), vec![0, 1]);
    assert_eq!(table.rows()[table.display_order()[0]][1].display, "2");
}

#[test]
fn table_state_clicks_toggle_direction() {
    let rows = vec![row("b", 2), row("a", 1), row("c", 3)];
    let mut table = ImpactTableState::new(rows);
    table.click(0);
    assert_eq!(table.display_order(), vec![1, 0, 2]);
    table.click(0);
    assert_eq!(table.sort_state(), Some((0, SortDir::Desc)));
    assert_eq!(table.display_order(), vec![2, 0, 1]);
    table.click(0);
    assert_eq!(table.display_order(), vec![1, 0, 2]);
}
