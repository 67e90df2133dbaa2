use stm_query_builder::joins::{bfs_path, join_edges, plan_joins};
use stm_query_builder::schema::{ColumnInfo, Schema, TableInfo};
use stm_query_builder::scratch::{build_scratch_sql, recognise_pasted_sql};

fn strings(v: &[&str]) -> Vec<String> {
    v.iter().map(|s| s.to_string()).collect()
}

fn pairs(v: &[(&str, &str)]) -> Vec<(String, String)> {
    v.iter().map(|(a, b)| (a.to_string(), b.to_string())).collect()
}

const EE_ON: &str = "EXPENSE_ENTRY.REPORT_ID = EXPENSE_REPORT.REPORT_ID";
const EA_ON: &str = "EXPENSE_ALLOCATION.REPORT_ID = EXPENSE_ENTRY.REPORT_ID\n    AND EXPENSE_ALLOCATION.ENTRY_ID = EXPENSE_ENTRY.ENTRY_ID";

#[test]
fn bfs_one_step() {
    let p = bfs_path(&join_edges(), &strings(&["TRIP"]), &"TRIP_SEGMENT_AIR".to_string());
    assert_eq!(p, Some(pairs(&[("TRIP_SEGMENT_AIR", "TRIP_SEGMENT_AIR.TRIP_ID = TRIP.TRIP_ID")])));
}

#[test]
fn bfs_shortest_of_two_steps() {
    let p = bfs_path(&join_edges(), &strings(&["EXPENSE_REPORT"]), &"EXPENSE_ALLOCATION".to_string());
    assert_eq!(p, Some(pairs(&[("EXPENSE_ENTRY", EE_ON), ("EXPENSE_ALLOCATION", EA_ON)])));
}

#[test]
fn bfs_equal_paths_first_by_edge_order() {
    // Both EMPLOYEE and TRIP lie between the two; EMPLOYEE's edge comes first.
    let p = bfs_path(&join_edges(), &strings(&["TRAVEL_REQUEST"]), &"EXPENSE_REPORT".to_string());
    assert_eq!(
        p,
        Some(pairs(&[
            ("EMPLOYEE", "EMPLOYEE.LOGIN_ID = TRAVEL_REQUEST.LOGIN_ID"),
            ("EXPENSE_REPORT", "EMPLOYEE.LOGIN_ID = EXPENSE_REPORT.LOGIN_ID"),
        ]))
    );
}

#[test]
fn bfs_equal_paths_first_by_start_order() {
    // From TRIP or TRAVEL_REQUEST alike one step reaches EMPLOYEE: the first start wins.
    let g = join_edges();
    let p = bfs_path(&g, &strings(&["TRIP", "TRAVEL_REQUEST"]), &"EMPLOYEE".to_string());
    assert_eq!(p, Some(pairs(&[("EMPLOYEE", "EMPLOYEE.LOGIN_ID = TRIP.LOGIN_ID")])));
    let p = bfs_path(&g, &strings(&["TRAVEL_REQUEST", "TRIP"]), &"EMPLOYEE".to_string());
    assert_eq!(p, Some(pairs(&[("EMPLOYEE", "EMPLOYEE.LOGIN_ID = TRAVEL_REQUEST.LOGIN_ID")])));
}

#[test]
fn plan_equal_paths_first_by_edge_order() {
    let (joins, auto) = plan_joins(&strings(&["TRAVEL_REQUEST", "EXPENSE_REPORT"]));
    assert_eq!(
        joins,
        pairs(&[
            ("TRAVEL_REQUEST", ""),
            ("EMPLOYEE", "EMPLOYEE.LOGIN_ID = TRAVEL_REQUEST.LOGIN_ID"),
            ("EXPENSE_REPORT", "EMPLOYEE.LOGIN_ID = EXPENSE_REPORT.LOGIN_ID"),
        ])
    );
    assert_eq!(auto, strings(&["EMPLOYEE"]));
}

#[test]
fn bfs_no_path() {
    let g = join_edges();
    assert_eq!(bfs_path(&g, &strings(&["TRIP"]), &"TRIP".to_string()), None);
    assert_eq!(bfs_path(&g, &strings(&["TRIP"]), &"NOT_A_TABLE".to_string()), None);
    assert_eq!(bfs_path(&g, &Vec::new(), &"TRIP".to_string()), None);
}

#[test]
fn plan_adds_bridge_tables() {
    let (joins, auto) = plan_joins(&strings(&["EXPENSE_REPORT", "EXPENSE_ALLOCATION"]));
    assert_eq!(joins, pairs(&[("EXPENSE_REPORT", ""), ("EXPENSE_ENTRY", EE_ON), ("EXPENSE_ALLOCATION", EA_ON)]));
    assert_eq!(auto, strings(&["EXPENSE_ENTRY"]));
}

#[test]
fn plan_through_several_bridges() {
    let (joins, auto) = plan_joins(&strings(&["EXPENSE_REPORT", "INVOICE_LINE"]));
    assert_eq!(
        joins,
        pairs(&[
            ("EXPENSE_REPORT", ""),
            ("EMPLOYEE", "EMPLOYEE.LOGIN_ID = EXPENSE_REPORT.LOGIN_ID"),
            ("INVOICE", "EMPLOYEE.LOGIN_ID = INVOICE.LOGIN_ID"),
            ("INVOICE_LINE", "INVOICE_LINE.INVOICE_ID = INVOICE.INVOICE_ID"),
        ])
    );
    assert_eq!(auto, strings(&["EMPLOYEE", "INVOICE"]));
}

#[test]
fn plan_skips_unreachable_and_empty() {
    let (joins, auto) = plan_joins(&strings(&["EXPENSE_REPORT", "NOT_A_TABLE"]));
    assert_eq!(joins, pairs(&[("EXPENSE_REPORT", "")]));
    assert!(auto.is_empty());
    let (joins, auto) = plan_joins(&Vec::new());
    assert!(joins.is_empty() && auto.is_empty());
}

#[test]
fn plan_uses_selected_bridge_without_marking_it() {
    let (joins, auto) = plan_joins(&strings(&["EXPENSE_REPORT", "EXPENSE_ALLOCATION", "EXPENSE_ENTRY"]));
    assert_eq!(joins, pairs(&[("EXPENSE_REPORT", ""), ("EXPENSE_ENTRY", EE_ON), ("EXPENSE_ALLOCATION", EA_ON)]));
    assert!(auto.is_empty());
}

#[test]
fn scratch_sql_text() {
    let joins = pairs(&[("EXPENSE_REPORT", ""), ("EXPENSE_ENTRY", EE_ON), ("CASH_ADVANCE", "")]);
    assert_eq!(
        build_scratch_sql(&joins, &strings(&["EXPENSE_REPORT.REPORT_ID", "EXPENSE_ENTRY.AMOUNT"])),
        format!("SELECT EXPENSE_REPORT.REPORT_ID,\n    EXPENSE_ENTRY.AMOUNT\nFROM EXPENSE_REPORT\nLEFT JOIN EXPENSE_ENTRY\n    ON {EE_ON}\nLEFT JOIN CASH_ADVANCE")
    );
    assert_eq!(build_scratch_sql(&pairs(&[("TRIP", "")]), &Vec::new()), "SELECT *\nFROM TRIP");
    assert_eq!(build_scratch_sql(&Vec::new(), &strings(&["A.B"])), "");
}

fn schema() -> Schema {
    let t = |name: &str, cols: &[&str]| TableInfo {
        name: name.to_string(),
        label: String::new(),
        columns: cols.iter().map(|c| ColumnInfo { name: c.to_string(), label: String::new() }).collect(),
    };
    Schema { tables: vec![t("EXPENSE_REPORT", &["REPORT_ID", "AMOUNT"]), t("EXPENSE_ENTRY", &["ENTRY_ID", "AMOUNT"])] }
}

#[test]
fn pasted_sql_is_recognised() {
    let sql = "SELECT EXPENSE_REPORT.REPORT_ID, entry_id, amount, foo.bar, EXPENSE_REPORT.ZZZ, nope\nFROM expense_report LEFT JOIN EXPENSE_ENTRY ON A = B JOIN MISSING_T";
    let r = recognise_pasted_sql(sql, &schema());
    assert_eq!(r.tables, strings(&["EXPENSE_REPORT", "EXPENSE_ENTRY"]));
    assert_eq!(r.unknown_tables, strings(&["MISSING_T"]));
    assert_eq!(
        r.columns,
        strings(&["EXPENSE_REPORT.REPORT_ID", "EXPENSE_ENTRY.ENTRY_ID", "EXPENSE_REPORT.AMOUNT"])
    );
    assert_eq!(r.unknown_columns, strings(&["FOO.BAR", "EXPENSE_REPORT.ZZZ", "NOPE"]));
}

#[test]
fn pasted_star_selects_no_columns() {
    let r = recognise_pasted_sql("select * from EXPENSE_ENTRY where X = 1", &schema());
    assert_eq!(r.tables, strings(&["EXPENSE_ENTRY"]));
    assert!(r.columns.is_empty());
    assert!(r.unknown_tables.is_empty());
    assert!(r.unknown_columns.is_empty());
}

#[test]
fn plan_takes_equally_near_tables_in_chosen_order() {
    let (joins, auto) = plan_joins(&strings(&["TRIP", "TRIP_SEGMENT_CAR", "TRIP_SEGMENT_AIR"]));
    assert_eq!(
        joins,
        pairs(&[
            ("TRIP", ""),
            ("TRIP_SEGMENT_CAR", "TRIP_SEGMENT_CAR.TRIP_ID = TRIP.TRIP_ID"),
            ("TRIP_SEGMENT_AIR", "TRIP_SEGMENT_AIR.TRIP_ID = TRIP.TRIP_ID"),
        ])
    );
    assert!(auto.is_empty());
}

#[test]
fn plan_ignores_repeated_choices() {
    let (joins, auto) = plan_joins(&strings(&["TRIP", "TRIP", "TRIP_SEGMENT_AIR", "TRIP_SEGMENT_AIR"]));
    assert_eq!(joins, pairs(&[("TRIP", ""), ("TRIP_SEGMENT_AIR", "TRIP_SEGMENT_AIR.TRIP_ID = TRIP.TRIP_ID")]));
    assert!(auto.is_empty());
}
