use stm_query_builder::commands::{generate_query, QueryParams};
use stm_query_builder::params::ParamMap;
use stm_query_builder::templates::{
    group_name, in_group, substitute_params, template_groups, QueryTemplate,
};

fn params(pairs: &[(&str, &str)]) -> ParamMap {
    let mut p = ParamMap::new();
    for (k, v) in pairs {
        p.insert(k.to_string(), v.to_string());
    }
    p
}

fn template(id: &str, group: Option<&str>, sql: &str) -> QueryTemplate {
    QueryTemplate {
        id: id.to_string(),
        group: group.map(|g| g.to_string()),
        name: id.to_string(),
        description: String::new(),
        sql: sql.to_string(),
    }
}

#[test]
fn builtin_templates_are_listed() {
    let b = QueryTemplate::builtin();
    let ids: Vec<&str> = b.iter().map(|t| t.id.as_str()).collect();
    assert_eq!(ids, vec!["travel_requests_by_employee", "travel_expenses_by_date", "open_travel_requests"]);
    assert!(b.iter().all(|t| t.group.as_deref() == Some("Built-in")));
    assert_eq!(b[0].sql, "SELECT * FROM PTRV_HEAD WHERE PERNR = '{employee_id}'");
}

#[test]
fn param_keys_in_order() {
    let b = QueryTemplate::builtin();
    assert_eq!(b[1].param_keys(), vec!["request_id", "start_date", "end_date"]);
    let t = template("t", None, "x {a} {} {b");
    assert_eq!(t.param_keys(), vec!["a", "b"]);
}

#[test]
fn render_fills_placeholders() {
    let b = QueryTemplate::builtin();
    let r = b[0].render(&params(&[("employee_id", "00001234")]));
    assert_eq!(r, Ok("SELECT * FROM PTRV_HEAD WHERE PERNR = '00001234'".to_string()));
}

#[test]
fn render_lists_missing_parameters() {
    let b = QueryTemplate::builtin();
    let r = b[1].render(&params(&[("request_id", "7")]));
    assert_eq!(r, Err("Missing parameters: start_date, end_date".to_string()));
}

#[test]
fn render_ignores_unused_parameters() {
    let t = template("t", None, "SELECT 1");
    assert_eq!(t.render(&params(&[("x", "y")])), Ok("SELECT 1".to_string()));
}

#[test]
fn substitute_replaces_every_occurrence() {
    let out: String = substitute_params("{a}-{a}-{b}", &params(&[("a", "1"), ("b", "2")])).into_iter().collect();
    assert_eq!(out, "1-1-2");
}

#[test]
fn generate_query_finds_template() {
    let all = QueryTemplate::builtin();
    let q = QueryParams { template_id: "open_travel_requests".to_string(), parameters: params(&[("prefix", "TR")]) };
    assert_eq!(
        generate_query(q, &all),
        Ok("SELECT * FROM PTRV_HEAD WHERE REINR LIKE 'TR%' AND STATV = '10'".to_string())
    );
}

#[test]
fn generate_query_unknown_template() {
    let all = QueryTemplate::builtin();
    let q = QueryParams { template_id: "nope".to_string(), parameters: ParamMap::new() };
    assert_eq!(generate_query(q, &all), Err("Template 'nope' not found".to_string()));
}

#[test]
fn param_map_keeps_one_entry_per_name() {
    let mut p = params(&[("a", "1"), ("b", "2")]);
    p.insert("a".to_string(), "3".to_string());
    assert_eq!(p.len(), 2);
    assert_eq!(p.get(&"a".to_string()), Some(&"3".to_string()));
    assert_eq!(p.get(&"b".to_string()), Some(&"2".to_string()));
    assert_eq!(p.get(&"c".to_string()), None);
    assert_eq!(p.entry(0), (&"a".to_string(), &"3".to_string()));
    assert!(p.contains_key(&"b".to_string()));
    p.clear();
    assert_eq!(p.len(), 0);
}

#[test]
fn groups_in_first_seen_order_with_own_last() {
    let ts = vec![
        template("a", Some("My Templates"), ""),
        template("b", Some("Built-in"), ""),
        template("c", None, ""),
        template("d", Some("Built-in"), ""),
        template("e", Some("Finance"), ""),
    ];
    assert_eq!(template_groups(&ts), vec!["Built-in", "Other", "Finance", "My Templates"]);
    assert_eq!(group_name(&ts[2]), "Other");
    assert!(in_group(&ts[2], "Other"));
    assert!(!in_group(&ts[1], "Other"));
    assert!(in_group(&ts[3], "Built-in"));
}

#[test]
fn groups_without_own_group() {
    let ts = vec![template("a", Some("X"), ""), template("b", Some("Y"), "")];
    assert_eq!(template_groups(&ts), vec!["X", "Y"]);
    assert!(template_groups(&Vec::new()).is_empty());
}
