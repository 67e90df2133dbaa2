use stm_query_builder::app_state::{App, AppView, Effect, MainTab, Message};
use stm_query_builder::builder_state::WhereOperator;
use stm_query_builder::customiser::JoinType;
use stm_query_builder::schema::{ColumnInfo, Schema, TableInfo};
use stm_query_builder::settings::{Settings, ThemeColor, ThemeMode};

fn schema() -> Schema {
    let t = |name: &str, cols: &[&str]| TableInfo {
        name: name.to_string(),
        label: String::new(),
        columns: cols.iter().map(|c| ColumnInfo { name: c.to_string(), label: String::new() }).collect(),
    };
    Schema {
        tables: vec![
            t("PTRV_HEAD", &["PERNR", "REINR"]),
            t("EXPENSE_REPORT", &["REPORT_ID", "AMOUNT"]),
            t("EXPENSE_ENTRY", &["ENTRY_ID"]),
        ],
    }
}

fn app() -> App {
    App::new(Settings::default(), Vec::new(), Vec::new(), schema())
}

fn s(x: &str) -> String {
    x.to_string()
}

fn saved_size(e: &Effect) -> Option<u16> {
    match e {
        Effect::SaveSettings(st) => Some(st.font_size),
        _ => None,
    }
}

#[test]
fn start_up_state() {
    let a = app();
    assert_eq!(a.title(), "STM Query Builder");
    assert_eq!(a.font_size, 14);
    assert_eq!(a.font_size_raw, "14");
    assert_eq!(a.view, AppView::Main);
    assert_eq!(a.main_tab, MainTab::Templates);
    assert_eq!(a.all_templates().len(), 3);
}

#[test]
fn font_size_steps_and_bounds() {
    let mut a = app();
    let e = a.update(Message::FontIncrease);
    assert_eq!((a.font_size, a.font_size_raw.as_str()), (15, "15"));
    assert_eq!(saved_size(&e), Some(15));
    let e = a.update(Message::FontDecrease);
    assert_eq!(a.font_size, 14);
    assert_eq!(saved_size(&e), Some(14));
    let mut top = App::new(Settings { font_size: 28, ..Settings::default() }, Vec::new(), Vec::new(), schema());
    assert!(matches!(top.update(Message::FontIncrease), Effect::Nothing));
    assert_eq!(top.font_size, 28);
    let mut bottom = App::new(Settings { font_size: 10, ..Settings::default() }, Vec::new(), Vec::new(), schema());
    assert!(matches!(bottom.update(Message::FontDecrease), Effect::Nothing));
    assert_eq!(bottom.font_size, 10);
}

#[test]
fn typed_font_size() {
    let mut a = app();
    let e = a.update(Message::FontSizeInput(s(" 20 ")));
    assert_eq!((a.font_size, a.font_size_raw.as_str()), (20, " 20 "));
    assert_eq!(saved_size(&e), Some(20));
    assert!(matches!(a.update(Message::FontSizeInput(s("99"))), Effect::Nothing));
    assert_eq!((a.font_size, a.font_size_raw.as_str()), (20, "99"));
    assert!(matches!(a.update(Message::FontSizeInput(s("abc"))), Effect::Nothing));
    assert_eq!(a.font_size, 20);
}

#[test]
fn theme_is_saved() {
    let mut a = app();
    match a.update(Message::SetTheme(ThemeColor::Green, ThemeMode::Dark)) {
        Effect::SaveSettings(st) => {
            assert_eq!(st.theme_color, ThemeColor::Green);
            assert_eq!(st.theme_mode, ThemeMode::Dark);
            assert_eq!(st.font_size, 14);
        }
        _ => panic!("settings not saved"),
    }
}

#[test]
fn choose_template_and_generate() {
    let mut a = app();
    a.update(Message::TemplateSelected(s("travel_requests_by_employee")));
    assert_eq!(a.selected_template.as_deref(), Some("travel_requests_by_employee"));
    assert_eq!(a.sql_text, "SELECT PERNR, REINR\nFROM PTRV_HEAD\nWHERE PERNR = '{employee_id}'");
    a.update(Message::ParameterChanged(s("employee_id"), s("42")));
    a.update(Message::GenerateQuery);
    assert_eq!(a.sql_text, "SELECT PERNR, REINR\nFROM PTRV_HEAD\nWHERE PERNR = '42'");
    assert!(a.error.is_none());
}

#[test]
fn unknown_template_reports_error() {
    let mut a = app();
    a.update(Message::TemplateSelected(s("nope")));
    assert!(a.customiser.is_none());
    assert_eq!(a.sql_text, "");
    a.update(Message::GenerateQuery);
    assert_eq!(a.error.as_deref(), Some("Template 'nope' not found"));
}

#[test]
fn customiser_edits_regenerate_sql() {
    let mut a = app();
    a.update(Message::TemplateSelected(s("travel_requests_by_employee")));
    a.update(Message::FieldToggled(s("REINR"), false));
    assert_eq!(a.sql_text, "SELECT PERNR\nFROM PTRV_HEAD\nWHERE PERNR = '{employee_id}'");
    a.update(Message::CustomFieldInput(s("  EXTRA  ")));
    a.update(Message::AddCustomField);
    let c = a.customiser.as_ref().unwrap();
    assert_eq!(c.available_columns, vec![s("PERNR"), s("REINR"), s("EXTRA")]);
    assert_eq!(c.selected_fields, vec![s("PERNR"), s("EXTRA")]);
    assert_eq!(c.new_field_input, "");
    a.update(Message::AddJoin);
    a.update(Message::JoinTableChanged(0, s("PTRV_PERIO")));
    a.update(Message::JoinConditionChanged(0, s("a = b")));
    a.update(Message::JoinTypeChanged(0, JoinType::Left));
    assert_eq!(
        a.sql_text,
        "SELECT PERNR, EXTRA\nFROM PTRV_HEAD\nLEFT JOIN PTRV_PERIO ON a = b\nWHERE PERNR = '{employee_id}'"
    );
    a.update(Message::JoinTableChanged(5, s("ignored")));
    a.update(Message::RemoveJoin(0));
    assert_eq!(a.sql_text, "SELECT PERNR, EXTRA\nFROM PTRV_HEAD\nWHERE PERNR = '{employee_id}'");
}

#[test]
fn groups_collapse_and_expand() {
    let mut a = app();
    let g = s("Built-in");
    assert!(a.group_is_expanded(&g));
    a.update(Message::ToggleGroup(g.clone()));
    assert!(!a.group_is_expanded(&g));
    a.update(Message::ToggleGroup(g.clone()));
    assert!(a.group_is_expanded(&g));
}

#[test]
fn builder_saves_a_template() {
    let mut a = app();
    a.update(Message::OpenBuilder);
    assert_eq!(a.view, AppView::Builder);
    assert!(matches!(a.update(Message::BuilderSave), Effect::Nothing));
    assert_eq!(a.builder.save_error.as_deref(), Some("Template name is required."));
    a.update(Message::BuilderNameChanged(s("My Query")));
    assert!(a.builder.save_error.is_none());
    a.update(Message::BuilderTableSelected(s("PTRV_HEAD")));
    a.update(Message::BuilderColumnToggled(s("PERNR"), true));
    a.update(Message::BuilderColumnToggled(s("PERNR"), true));
    a.update(Message::BuilderConditionAdded);
    a.update(Message::BuilderConditionFieldChanged(0, s("PERNR")));
    a.update(Message::BuilderConditionParamChanged(0, s("emp")));
    a.update(Message::BuilderConditionOperatorChanged(0, WhereOperator::Like));
    assert!(matches!(a.update(Message::BuilderSave), Effect::SaveUserTemplates));
    assert_eq!(a.view, AppView::Main);
    assert!(a.builder.template_name.is_empty());
    let u = &a.user_templates[0];
    assert_eq!(u.id, "my_query");
    assert_eq!(u.name, "My Query");
    assert_eq!(u.description, "Custom query on PTRV_HEAD");
    assert_eq!(u.sql, "SELECT PERNR\nFROM PTRV_HEAD\nWHERE PERNR LIKE '{emp}' ");
    let all = a.all_templates();
    assert_eq!(all.len(), 4);
    assert_eq!(all[3].group.as_deref(), Some("My Templates"));
}

#[test]
fn builder_conditions_edit_and_remove() {
    let mut a = app();
    a.update(Message::OpenBuilder);
    a.update(Message::BuilderConditionAdded);
    a.update(Message::BuilderConditionAdded);
    a.update(Message::BuilderConditionParamChanged(1, s("p")));
    a.update(Message::BuilderConditionRemoved(0));
    assert_eq!(a.builder.conditions.len(), 1);
    assert_eq!(a.builder.conditions[0].param_name, "p");
    a.update(Message::BuilderConditionRemoved(3));
    assert_eq!(a.builder.conditions.len(), 1);
    a.update(Message::BuilderColumnToggled(s("X"), true));
    a.update(Message::BuilderColumnToggled(s("X"), false));
    assert!(a.builder.selected_columns.is_empty());
    a.update(Message::BuilderBack);
    assert_eq!(a.view, AppView::Main);
    assert!(a.builder.conditions.is_empty());
}

#[test]
fn scratch_tables_columns_and_drag() {
    let mut a = app();
    a.update(Message::MainTabChanged(MainTab::FromScratch));
    a.update(Message::ScratchTableToggled(s("EXPENSE_REPORT"), true));
    a.update(Message::ScratchTableToggled(s("EXPENSE_ALLOCATION"), true));
    assert_eq!(a.scratch_joins.len(), 3);
    assert_eq!(a.scratch_auto_added, vec![s("EXPENSE_ENTRY")]);
    a.update(Message::ScratchColumnToggled(s("EXPENSE_REPORT.REPORT_ID"), true));
    a.update(Message::ScratchColumnToggled(s("EXPENSE_ALLOCATION.AMOUNT"), true));
    a.update(Message::ScratchDragStart(1));
    a.update(Message::ScratchDragHover(0));
    assert_eq!(a.scratch_hover_idx, Some(0));
    a.update(Message::ScratchDragDrop(0));
    assert_eq!(a.scratch_columns, vec![s("EXPENSE_ALLOCATION.AMOUNT"), s("EXPENSE_REPORT.REPORT_ID")]);
    assert_eq!((a.scratch_drag_idx, a.scratch_hover_idx), (None, None));
    assert!(a.scratch_sql.starts_with("SELECT EXPENSE_ALLOCATION.AMOUNT,\n    EXPENSE_REPORT.REPORT_ID\nFROM EXPENSE_REPORT\nLEFT JOIN EXPENSE_ENTRY"));
    a.update(Message::ScratchTableToggled(s("EXPENSE_ALLOCATION"), false));
    assert_eq!(a.scratch_columns, vec![s("EXPENSE_REPORT.REPORT_ID")]);
    assert_eq!(a.scratch_joins, vec![(s("EXPENSE_REPORT"), s(""))]);
    assert_eq!(a.scratch_sql, "SELECT EXPENSE_REPORT.REPORT_ID\nFROM EXPENSE_REPORT");
    a.update(Message::ScratchDragStart(0));
    a.update(Message::ScratchDragCancel);
    assert_eq!(a.scratch_drag_idx, None);
    a.update(Message::ResetScratch);
    assert!(a.scratch_tables.is_empty() && a.scratch_columns.is_empty() && a.scratch_sql.is_empty());
}

#[test]
fn pasted_scratch_sql_is_recognised() {
    let mut a = app();
    let sql = s("SELECT report_id, x FROM EXPENSE_REPORT JOIN NOPE");
    a.update(Message::ScratchSqlEdited(sql.clone(), true));
    assert_eq!(a.scratch_sql, sql);
    assert_eq!(a.scratch_tables, vec![s("EXPENSE_REPORT")]);
    assert_eq!(a.scratch_columns, vec![s("EXPENSE_REPORT.REPORT_ID")]);
    assert_eq!(a.scratch_unknown_tables, vec![s("NOPE")]);
    assert_eq!(a.scratch_unknown_columns, vec![s("X")]);
    assert_eq!(a.scratch_joins, vec![(s("EXPENSE_REPORT"), s(""))]);
    a.update(Message::ScratchSqlEdited(s("typed"), false));
    assert_eq!(a.scratch_sql, "typed");
    assert_eq!(a.scratch_tables, vec![s("EXPENSE_REPORT")]);
}

#[test]
fn clipboard_save_and_files() {
    let mut a = app();
    a.update(Message::SqlEdited(s("SELECT 1")));
    match a.update(Message::CopyToClipboard) {
        Effect::WriteClipboard(t) => assert_eq!(t, "SELECT 1"),
        _ => panic!("no clipboard write"),
    }
    a.update(Message::SaveQuery);
    a.update(Message::SqlEdited(s("   ")));
    a.update(Message::SaveQuery);
    assert_eq!(a.saved_queries, vec![s("SELECT 1")]);
    assert!(matches!(a.update(Message::OpenFile), Effect::PickFile));
    a.update(Message::TemplateSelected(s("open_travel_requests")));
    a.update(Message::FileOpened(Some(s("from file"))));
    assert_eq!(a.sql_text, "from file");
    assert!(a.selected_template.is_none());
    a.update(Message::FileOpened(None));
    assert_eq!(a.sql_text, "from file");
    a.update(Message::ResetTemplates);
    assert!(a.sql_text.is_empty() && a.customiser.is_none());
}

#[test]
fn email_outcomes() {
    let mut a = app();
    assert!(matches!(a.update(Message::EmailSql(s("  "))), Effect::Nothing));
    match a.update(Message::EmailSql(s("SELECT 1"))) {
        Effect::OpenMailto(u) => assert_eq!(u, "mailto:?subject=SQL%20Query&body=SELECT%201"),
        _ => panic!("no mail"),
    }
    a.update(Message::EmailFailed(s("no client")));
    assert_eq!(a.email_error.as_deref(), Some("Could not open email client: no client"));
    a.update(Message::EmailOpened);
    assert!(a.email_error.is_none());
    assert!(matches!(a.update(Message::Noop), Effect::Nothing));
}

#[test]
fn parameter_rows_follow_the_template() {
    let mut a = app();
    assert!(a.parameter_rows().is_empty());
    a.update(Message::TemplateSelected(s("travel_expenses_by_date")));
    a.update(Message::ParameterChanged(s("start_date"), s("2024-01-01")));
    assert_eq!(
        a.parameter_rows(),
        vec![(s("request_id"), s("")), (s("start_date"), s("2024-01-01")), (s("end_date"), s(""))]
    );
}

#[test]
fn column_rows_flag_drag_and_unknowns() {
    let mut a = app();
    a.update(Message::ScratchSqlEdited(s("SELECT report_id, amount, zz FROM EXPENSE_REPORT"), true));
    a.update(Message::ScratchDragStart(0));
    a.update(Message::ScratchDragHover(1));
    let rows = a.column_rows();
    assert_eq!(rows.len(), 3);
    assert_eq!((rows[0].table.as_str(), rows[0].column.as_str()), ("EXPENSE_REPORT", "REPORT_ID"));
    assert!(rows[0].dragging && !rows[0].target && !rows[0].unknown);
    assert!(!rows[1].dragging && rows[1].target);
    assert_eq!((rows[2].table.as_str(), rows[2].column.as_str()), ("", "ZZ"));
    assert!(rows[2].unknown && !rows[2].dragging && !rows[2].target);
}

#[test]
fn column_groups_and_table_choices() {
    let mut a = app();
    a.update(Message::ScratchTableToggled(s("EXPENSE_REPORT"), true));
    a.update(Message::ScratchTableToggled(s("EXPENSE_ALLOCATION"), true));
    a.update(Message::ScratchColumnToggled(s("EXPENSE_ENTRY.ENTRY_ID"), true));
    let groups = a.column_groups();
    let names: Vec<&str> = groups.iter().map(|g| g.table.as_str()).collect();
    assert_eq!(names, vec!["EXPENSE_REPORT", "EXPENSE_ENTRY"]);
    assert!(!groups[0].auto_added && groups[1].auto_added);
    assert_eq!(groups[1].columns[0].qualified, "EXPENSE_ENTRY.ENTRY_ID");
    assert!(groups[1].columns[0].checked);
    assert!(!groups[0].columns[0].checked);
    let tables = a.table_choices();
    assert_eq!(tables.len(), 3);
    assert!(!tables[0].checked && tables[1].checked && tables[2].auto_added);
}
