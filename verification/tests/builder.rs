use stm_query_builder::builder_state::{BuilderState, WhereCondition, WhereOperator};

fn builder(name: &str, table: Option<&str>, cols: &[&str]) -> BuilderState {
    BuilderState {
        template_name: name.to_string(),
        selected_table: table.map(|t| t.to_string()),
        selected_columns: cols.iter().map(|c| c.to_string()).collect(),
        conditions: Vec::new(),
        save_error: None,
    }
}

fn condition(field: Option<&str>, op: WhereOperator, param: &str) -> WhereCondition {
    WhereCondition { field: field.map(|f| f.to_string()), operator: op, param_name: param.to_string() }
}

#[test]
fn operators_are_offered_in_order() {
    let all = WhereOperator::all();
    assert_eq!(all.len(), 7);
    let sql: Vec<&str> = all.iter().map(|o| o.to_sql()).collect();
    assert_eq!(sql, vec!["=", "<>", "LIKE", ">", "<", ">=", "<="]);
}

#[test]
fn defaults_are_empty() {
    let b = BuilderState::default();
    assert!(b.template_name.is_empty());
    assert!(b.selected_table.is_none());
    assert!(b.selected_columns.is_empty());
    assert!(b.conditions.is_empty());
    assert!(b.save_error.is_none());
    let c = WhereCondition::default();
    assert!(c.field.is_none());
    assert_eq!(c.operator, WhereOperator::Eq);
    assert!(c.param_name.is_empty());
}

#[test]
fn build_sql_needs_table_and_columns() {
    assert_eq!(builder("x", None, &["A"]).build_sql(), None);
    assert_eq!(builder("x", Some("PTRV_HEAD"), &[]).build_sql(), None);
    assert_eq!(
        builder("x", Some("PTRV_HEAD"), &["PERNR", "REINR"]).build_sql(),
        Some("SELECT PERNR, REINR\nFROM PTRV_HEAD".to_string())
    );
}

#[test]
fn build_sql_keeps_only_complete_conditions() {
    let mut b = builder("x", Some("PTRV_HEAD"), &["PERNR"]);
    b.conditions.push(condition(Some("PERNR"), WhereOperator::Eq, "employee_id"));
    b.conditions.push(condition(Some("REINR"), WhereOperator::Like, ""));
    b.conditions.push(condition(None, WhereOperator::Gt, "ignored"));
    b.conditions.push(condition(Some("DATV1"), WhereOperator::Gte, "start"));
    assert_eq!(
        b.build_sql(),
        Some(
            "SELECT PERNR\nFROM PTRV_HEAD\nWHERE PERNR = '{employee_id}' \n  AND DATV1 >= '{start}' "
                .to_string()
        )
    );
}

#[test]
fn template_id_lowercases_and_underscores() {
    assert_eq!(builder("Requests by Cost Center", None, &[]).build_template_id(), "requests_by_cost_center");
    assert_eq!(builder("A-B (2)", None, &[]).build_template_id(), "a_b__2_");
    assert_eq!(builder("", None, &[]).build_template_id(), "");
}

#[test]
fn template_id_of_an_id_is_itself() {
    let id = builder("Travel Costs 2024!", None, &[]).build_template_id();
    assert_eq!(id, "travel_costs_2024_");
    assert_eq!(builder(&id, None, &[]).build_template_id(), id);
}

#[test]
fn validate_reports_each_problem() {
    assert_eq!(builder("  ", Some("T"), &["A"]).validate(), Err("Template name is required.".to_string()));
    assert_eq!(builder("n", None, &["A"]).validate(), Err("Select a table first.".to_string()));
    assert_eq!(
        builder("n", Some("T"), &[]).validate(),
        Err("Select at least one field for SELECT.".to_string())
    );
    let mut b = builder("n", Some("T"), &["A"]);
    b.conditions.push(condition(Some("A"), WhereOperator::Eq, "a"));
    b.conditions.push(condition(Some("B"), WhereOperator::Eq, ""));
    assert_eq!(
        b.validate(),
        Err("Condition 2 is incomplete — set both the field and a parameter name.".to_string())
    );
    let mut ok = builder("n", Some("T"), &["A"]);
    ok.conditions.push(condition(None, WhereOperator::Eq, ""));
    assert_eq!(ok.validate(), Ok(()));
}

#[test]
fn a_valid_builder_has_sql() {
    let b = builder("Name", Some("T"), &["A"]);
    assert_eq!(b.validate(), Ok(()));
    assert!(b.build_sql().is_some());
}
