use stm_query_builder::customiser::{parse_select_sql, JoinDef, JoinType, QueryCustomiser};
use stm_query_builder::schema::{ColumnInfo, Schema, TableInfo};
use stm_query_builder::templates::QueryTemplate;

fn table(name: &str, cols: &[&str]) -> TableInfo {
    TableInfo {
        name: name.to_string(),
        label: format!("{name} label"),
        columns: cols.iter().map(|c| ColumnInfo { name: c.to_string(), label: String::new() }).collect(),
    }
}

fn schema() -> Schema {
    Schema { tables: vec![table("PTRV_HEAD", &["PERNR", "REINR"]), table("PTRV_PERIO", &["REINR", "BUDAT"])] }
}

fn template(sql: &str) -> QueryTemplate {
    QueryTemplate {
        id: "t".to_string(),
        group: None,
        name: "t".to_string(),
        description: String::new(),
        sql: sql.to_string(),
    }
}

#[test]
fn parse_fields_table_where_order() {
    let p = parse_select_sql("SELECT a, b FROM T WHERE x = 1 ORDER BY a");
    assert!(!p.select_star);
    assert_eq!(p.fields, vec!["a", "b"]);
    assert_eq!(p.from_table, "T");
    assert_eq!(p.where_clause, "x = 1");
    assert_eq!(p.order_clause, "a");
}

#[test]
fn parse_star_and_whitespace() {
    let p = parse_select_sql("select *\n  from   PTRV_HEAD\twhere PERNR = '{employee_id}'");
    assert!(p.select_star);
    assert!(p.fields.is_empty());
    assert_eq!(p.from_table, "PTRV_HEAD");
    assert_eq!(p.where_clause, "PERNR = '{employee_id}'");
    assert_eq!(p.order_clause, "");
}

#[test]
fn parse_table_stops_at_join() {
    let p = parse_select_sql("SELECT x FROM A INNER JOIN B ON A.K = B.K");
    assert_eq!(p.from_table, "A");
    assert_eq!(p.fields, vec!["x"]);
    assert_eq!(p.where_clause, "");
}

#[test]
fn parse_without_from() {
    let p = parse_select_sql("SELECT 1");
    assert!(!p.select_star);
    assert_eq!(p.fields, vec!["1"]);
    assert_eq!(p.from_table, "");
}

#[test]
fn customiser_of_star_template_selects_every_column() {
    let c = QueryCustomiser::from_template(&template("SELECT * FROM PTRV_HEAD WHERE PERNR = '{employee_id}'"), &schema());
    assert_eq!(c.base_table, "PTRV_HEAD");
    assert_eq!(c.available_columns, vec!["PERNR", "REINR"]);
    assert_eq!(c.selected_fields, vec!["PERNR", "REINR"]);
    assert_eq!(c.build_sql(), "SELECT PERNR, REINR\nFROM PTRV_HEAD\nWHERE PERNR = '{employee_id}'");
}

#[test]
fn customiser_matches_fields_ignoring_case() {
    let c = QueryCustomiser::from_template(&template("SELECT pernr, EXTRA FROM PTRV_HEAD ORDER BY pernr"), &schema());
    assert_eq!(c.available_columns, vec!["PERNR", "REINR", "EXTRA"]);
    assert_eq!(c.selected_fields, vec!["PERNR", "EXTRA"]);
    assert_eq!(c.order_clause, "pernr");
    assert_eq!(c.build_sql(), "SELECT PERNR, EXTRA\nFROM PTRV_HEAD\nORDER BY pernr");
}

#[test]
fn customiser_of_unknown_table_uses_template_fields() {
    let c = QueryCustomiser::from_template(&template("SELECT a, b FROM NOWHERE"), &schema());
    assert_eq!(c.available_columns, vec!["a", "b"]);
    assert_eq!(c.selected_fields, vec!["a", "b"]);
}

#[test]
fn customiser_joins_and_empty_selection() {
    let mut c = QueryCustomiser::from_template(&template("SELECT * FROM PTRV_HEAD"), &schema());
    c.selected_fields.clear();
    c.joins.push(JoinDef { join_type: JoinType::Left, table: " PTRV_PERIO ".to_string(), on_condition: " PTRV_PERIO.REINR = PTRV_HEAD.REINR ".to_string() });
    c.joins.push(JoinDef::default());
    c.joins.push(JoinDef { join_type: JoinType::Inner, table: "X".to_string(), on_condition: "  ".to_string() });
    assert_eq!(
        c.build_sql(),
        "SELECT *\nFROM PTRV_HEAD\nLEFT JOIN PTRV_PERIO ON PTRV_PERIO.REINR = PTRV_HEAD.REINR\nINNER JOIN X"
    );
}

#[test]
fn join_types() {
    assert_eq!(JoinType::all(), vec![JoinType::Inner, JoinType::Left]);
    assert_eq!(JoinType::Inner.label(), "INNER JOIN");
    assert_eq!(JoinType::Left.label(), "LEFT JOIN");
    assert_eq!(JoinType::default(), JoinType::Inner);
}

#[test]
fn schema_lookups() {
    let s = schema();
    assert_eq!(s.find_table_index("PTRV_PERIO"), Some(1));
    assert!(s.find_table("ptrv_perio").is_none());
    assert!(s.has_column("PTRV_HEAD", "PERNR"));
    assert!(!s.has_column("PTRV_HEAD", "BUDAT"));
    assert_eq!(s.column_names_of("PTRV_PERIO"), Some(vec!["REINR".to_string(), "BUDAT".to_string()]));
    assert_eq!(s.column_names_of("X"), None);
}

#[test]
fn parse_gives_back_the_customiser_sql() {
    let c = QueryCustomiser {
        base_table: "PTRV_HEAD".to_string(),
        available_columns: Vec::new(),
        selected_fields: vec!["PERNR".to_string(), "count(REINR) as n".to_string()],
        new_field_input: String::new(),
        where_clause: "PERNR = '{employee_id}' and x in (1, 2)".to_string(),
        order_clause: "PERNR desc".to_string(),
        joins: Vec::new(),
    };
    let p = parse_select_sql(&c.build_sql());
    assert!(!p.select_star);
    assert_eq!(p.fields, c.selected_fields);
    assert_eq!(p.from_table, c.base_table);
    assert_eq!(p.where_clause, c.where_clause);
    assert_eq!(p.order_clause, c.order_clause);
}

#[test]
fn parse_gives_back_the_customiser_sql_without_clauses() {
    let c = QueryCustomiser {
        base_table: "T".to_string(),
        available_columns: Vec::new(),
        selected_fields: vec!["a".to_string()],
        new_field_input: String::new(),
        where_clause: String::new(),
        order_clause: "b".to_string(),
        joins: Vec::new(),
    };
    let p = parse_select_sql(&c.build_sql());
    assert_eq!(p.fields, vec!["a"]);
    assert_eq!(p.from_table, "T");
    assert_eq!(p.where_clause, "");
    assert_eq!(p.order_clause, "b");
}

#[test]
fn parse_ignores_respacing() {
    let a = parse_select_sql("SELECT a, b FROM T WHERE x = 1 ORDER BY a");
    let b = parse_select_sql("  SELECT\ta,\n b  FROM T\n\nWHERE x   = 1 ORDER\tBY a \n");
    assert_eq!(a.select_star, b.select_star);
    assert_eq!(a.fields, b.fields);
    assert_eq!(a.from_table, b.from_table);
    assert_eq!(a.where_clause, b.where_clause);
    assert_eq!(a.order_clause, b.order_clause);
}

#[test]
fn parse_treats_unicode_spaces_as_whitespace() {
    let p = parse_select_sql("SELECT\u{3000}a,\u{a0}b\u{2009}FROM\u{85}T");
    assert_eq!(p.fields, vec!["a", "b"]);
    assert_eq!(p.from_table, "T");
}
