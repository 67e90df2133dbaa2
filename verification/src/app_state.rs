//! The state of the query-builder window, and what each user action does to
//! it. The window itself (drawing, the editors' cursors, files, the
//! clipboard, the mail client) is the caller's: an action hands back the
//! outside work it asks for as an [`Effect`].
use vstd::prelude::*;
use crate::builder_state::{
    builder_sql, template_id_of, validation_error, BuilderState, WhereCondition, WhereOperator,
};
use crate::commands::{first_with_id, generate_query, generated_query, QueryParams};
use crate::customiser::{customiser_for, customiser_sql, JoinDef, JoinType, QueryCustomiser};
use crate::joins::{is_join_plan, join_graph, path_view, plan_joins};
use crate::lists::{
    lemma_move_unrepeated, lemma_toggled_unrepeated, lemma_without_prefixed_unrepeated, push_new,
    push_unique, remove_entry, remove_prefixed, toggle_entry, toggled, without_prefixed,
};
use crate::mailto::{mailto_link, mailto_uri};
use crate::params::{inserted, value_of, ParamMap};
use crate::schema::{table_index, ColumnInfo, Schema, TableInfo};
use crate::scratch::{
    build_scratch_sql, first_dot, lemma_sort_fields_unrepeated, lemma_sort_tables_unrepeated,
    pasted_fields, pasted_table_names, qualified, recognise_pasted_sql, scratch_sql, sort_fields,
    sort_tables,
};
use crate::settings::{Settings, ThemeColor, ThemeMode, FONT_MAX, FONT_MIN};
use crate::templates::{
    apply_params, builtin_templates, placeholder_keys, substitute_params, template_views,
    QueryTemplate, TemplateView,
};
use crate::text::{
    chars_of, contains_string, decimal, decimal_string, is_blank, parse_u16, parsed_u16, push_all,
    string_from_chars, string_from_range, trim, trim_string,
};
use crate::user_templates::{as_listed, UserTemplate};
use vstd::utf8::encode_utf8;

verus! {

// ── State ────────────────────────────────────────────────────────────────────

/// Which screen is shown.
#[derive(Debug, Clone, Copy, PartialEq, Eq, Structural)]
pub enum AppView {
    Main,
    Builder,
}

/// Which tab of the main screen is shown.
#[derive(Debug, Clone, Copy, PartialEq, Eq, Structural)]
pub enum MainTab {
    Templates,
    FromScratch,
}

/// Everything the window shows and remembers.
pub struct App {
    pub selected_template: Option<String>,
    pub parameters: ParamMap,
    /// The text of the SQL editor of the templates tab.
    pub sql_text: String,
    pub customiser: Option<QueryCustomiser>,
    pub error: Option<String>,
    pub saved_queries: Vec<String>,
    /// Whether each template group is expanded; a group not listed is.
    pub group_expanded: Vec<(String, bool)>,
    /// Templates read from the templates directory.
    pub file_templates: Vec<QueryTemplate>,
    pub font_size: u16,
    /// The font size as typed.
    pub font_size_raw: String,
    pub theme_color: ThemeColor,
    pub theme_mode: ThemeMode,
    pub user_templates: Vec<UserTemplate>,
    pub view: AppView,
    pub builder: BuilderState,
    pub main_tab: MainTab,
    /// Tables the user ticked on the from-scratch tab.
    pub scratch_tables: Vec<String>,
    /// Qualified `TABLE.COLUMN` names the user ticked, in SELECT order.
    pub scratch_columns: Vec<String>,
    /// The join plan: each table and the ON condition that joins it; the
    /// first is the FROM table.
    pub scratch_joins: Vec<(String, String)>,
    /// Tables the plan added as bridges.
    pub scratch_auto_added: Vec<String>,
    /// The text of the SQL editor of the from-scratch tab.
    pub scratch_sql: String,
    /// The column row being dragged.
    pub scratch_drag_idx: Option<usize>,
    /// The column row under the pointer during a drag.
    pub scratch_hover_idx: Option<usize>,
    pub email_error: Option<String>,
    /// Tables named in pasted SQL that the schema does not know.
    pub scratch_unknown_tables: Vec<String>,
    /// Columns named in pasted SQL that the schema does not know.
    pub scratch_unknown_columns: Vec<String>,
    /// The tables and columns the window offers.
    pub schema: Schema,
}

/// A user action.
#[derive(Debug)]
pub enum Message {
    TemplateSelected(String),
    ParameterChanged(String, String),
    GenerateQuery,
    CopyToClipboard,
    SaveQuery,
    /// The SQL editor of the templates tab now holds this text.
    SqlEdited(String),
    OpenFile,
    FileOpened(Option<String>),
    ToggleGroup(String),
    FieldToggled(String, bool),
    CustomFieldInput(String),
    AddCustomField,
    AddJoin,
    RemoveJoin(usize),
    JoinTypeChanged(usize, JoinType),
    JoinTableChanged(usize, String),
    JoinConditionChanged(usize, String),
    SetTheme(ThemeColor, ThemeMode),
    FontIncrease,
    FontDecrease,
    FontSizeInput(String),
    OpenBuilder,
    BuilderBack,
    BuilderNameChanged(String),
    BuilderTableSelected(String),
    BuilderColumnToggled(String, bool),
    BuilderConditionAdded,
    BuilderConditionRemoved(usize),
    BuilderConditionFieldChanged(usize, String),
    BuilderConditionOperatorChanged(usize, WhereOperator),
    BuilderConditionParamChanged(usize, String),
    BuilderSave,
    MainTabChanged(MainTab),
    ScratchTableToggled(String, bool),
    ScratchColumnToggled(String, bool),
    ScratchDragStart(usize),
    ScratchDragHover(usize),
    ScratchDragDrop(usize),
    ScratchDragCancel,
    ScratchCopyToClipboard,
    /// The SQL editor of the from-scratch tab now holds this text; `true`
    /// when it came from a paste.
    ScratchSqlEdited(String, bool),
    EmailSql(String),
    EmailOpened,
    EmailFailed(String),
    ResetTemplates,
    ResetScratch,
    Noop,
}

/// The outside work an action asks for.
#[derive(Debug)]
pub enum Effect {
    Nothing,
    /// Put this text on the clipboard.
    WriteClipboard(String),
    /// Let the user pick a file and hand back its text as `FileOpened`.
    PickFile,
    /// Save these settings.
    SaveSettings(Settings),
    /// Save the user templates as they now are.
    SaveUserTemplates,
    /// Open this `mailto:` link; hand back `EmailOpened` or `EmailFailed`.
    OpenMailto(String),
}

// ── Views of the state ───────────────────────────────────────────────────────

/// Every template the window lists: the built-in ones, those read from
/// files, and the user's own under "My Templates".
pub open spec fn listed_templates(a: App) -> Seq<TemplateView> {
    builtin_templates() + template_views(a.file_templates@) + a.user_templates@.map_values(
        |u: UserTemplate| as_listed(u),
    )
}

/// The settings the state stands for.
pub open spec fn settings_of(a: App) -> Settings {
    Settings { font_size: a.font_size, theme_color: a.theme_color, theme_mode: a.theme_mode }
}

/// The group flags as text.
pub open spec fn flags_view(v: Seq<(String, bool)>) -> Seq<(Seq<char>, bool)> {
    v.map_values(|e: (String, bool)| (e.0@, e.1))
}

/// The first position at or after `k` of the flag of group `name`.
pub open spec fn flag_index(flags: Seq<(Seq<char>, bool)>, name: Seq<char>, k: int) -> Option<int>
    decreases flags.len() - k,
{
    if k < 0 || k >= flags.len() {
        None
    } else if flags[k].0 == name {
        Some(k)
    } else {
        flag_index(flags, name, k + 1)
    }
}

/// Group `name` is expanded: its flag says so, or it has none.
pub open spec fn group_expanded_in(flags: Seq<(Seq<char>, bool)>, name: Seq<char>) -> bool {
    match flag_index(flags, name, 0) {
        Some(i) => flags[i].1,
        None => true,
    }
}

/// The flags after group `name` is collapsed or expanded in turn.
pub open spec fn flipped(flags: Seq<(Seq<char>, bool)>, name: Seq<char>) -> Seq<(Seq<char>, bool)> {
    match flag_index(flags, name, 0) {
        Some(i) => flags.update(i, (name, !flags[i].1)),
        None => flags.push((name, false)),
    }
}

/// A builder with nothing chosen.
pub open spec fn builder_cleared(b: BuilderState) -> bool {
    &&& b.template_name@.len() == 0
    &&& b.selected_table is None
    &&& b.selected_columns@.len() == 0
    &&& b.conditions@.len() == 0
    &&& b.save_error is None
}

/// The join plan and the SQL of the from-scratch tab fit its tables and
/// columns.
pub open spec fn scratch_planned(a: App) -> bool {
    &&& is_join_plan(
        join_graph(),
        a.scratch_tables.deep_view(),
        path_view(a.scratch_joins@),
        a.scratch_auto_added.deep_view(),
    )
    &&& a.scratch_sql@ == scratch_sql(path_view(a.scratch_joins@), a.scratch_columns.deep_view())
}

/// The window's title.
pub open spec fn window_title() -> Seq<char> {
    "STM Query Builder"@
}

// ── What each action does ───────────────────────────────────────────────────

/// Choosing a template: its parameters are forgotten, and the customiser and
/// the editor show the first listed template with that id, or are emptied
/// when there is none.
pub open spec fn template_chosen(old: App, id: String, new: App) -> bool {
    &&& new == (App {
        selected_template: Some(id),
        parameters: new.parameters,
        error: None,
        customiser: new.customiser,
        sql_text: new.sql_text,
        ..old
    })
    &&& new.parameters@.len() == 0
    &&& match first_with_id(listed_templates(old), id@, 0) {
        Some(k) => new.customiser matches Some(c) && customiser_for(
            c,
            listed_templates(old)[k].sql,
            old.schema,
        ) && new.sql_text@ == customiser_sql(c),
        None => new.customiser is None && new.sql_text@.len() == 0,
    }
}

/// Generating the query: the customiser's SQL with the parameters filled in;
/// without a customiser, the chosen template rendered, or its error shown.
pub open spec fn query_generated(old: App, new: App) -> bool {
    match old.customiser {
        Some(c) => new == (App { sql_text: new.sql_text, error: None, ..old }) && new.sql_text@
            == apply_params(customiser_sql(c), old.parameters@),
        None => match old.selected_template {
            Some(id) => match generated_query(listed_templates(old), id@, old.parameters@) {
                Ok(sql) => new == (App { sql_text: new.sql_text, error: None, ..old })
                    && new.sql_text@ == sql,
                Err(e) => new == (App { error: new.error, ..old }) && (new.error matches Some(m)
                    && m@ == e),
            },
            None => new == old,
        },
    }
}

/// Font changes are saved with the rest of the settings.
pub open spec fn saves_settings(new: App, eff: Effect) -> bool {
    eff == Effect::SaveSettings(settings_of(new))
}

/// Whether a typed font size is taken: it parses as a `u16` in the allowed range.
pub open spec fn font_size_taken(raw: Seq<char>) -> Option<int> {
    match parsed_u16(trim(raw)) {
        Some(n) => if FONT_MIN <= n <= FONT_MAX {
            Some(n)
        } else {
            None
        },
        None => None,
    }
}

/// The customiser after an edit, and the editor showing its SQL.
pub open spec fn customiser_edited(old: App, new: App, c: QueryCustomiser, nc: QueryCustomiser) -> bool {
    &&& old.customiser == Some(c)
    &&& new == (App { customiser: Some(nc), sql_text: new.sql_text, ..old })
    &&& new.sql_text@ == customiser_sql(nc)
}

/// Saving the builder: refused with the reason while it is incomplete; else
/// its template joins the user's, and the builder closes, emptied.
pub open spec fn builder_saved(old: App, new: App, eff: Effect) -> bool {
    match validation_error(old.builder) {
        Some(e) => eff is Nothing && new == (App {
            builder: BuilderState { save_error: new.builder.save_error, ..old.builder },
            ..old
        }) && (new.builder.save_error matches Some(m) && m@ == e),
        None => {
            let n = old.user_templates@.len();
            &&& eff is SaveUserTemplates
            &&& new == (App {
                user_templates: new.user_templates,
                view: AppView::Main,
                builder: new.builder,
                ..old
            })
            &&& builder_cleared(new.builder)
            &&& new.user_templates@.len() == n + 1
            &&& new.user_templates@.take(n as int) == old.user_templates@
            &&& new.user_templates@[n as int].id@ == template_id_of(old.builder.template_name@)
            &&& new.user_templates@[n as int].name == old.builder.template_name
            &&& new.user_templates@[n as int].description@ == "Custom query on "@ + match old.builder.selected_table {
                Some(t) => t@,
                None => Seq::empty(),
            }
            &&& new.user_templates@[n as int].sql@ == match builder_sql(old.builder) {
                Some(q) => q,
                None => Seq::empty(),
            }
        },
    }
}

/// The builder after an edit of condition `i` (when there is one).
pub open spec fn condition_edited(old: App, new: App, i: usize, c: WhereCondition) -> bool {
    if i < old.builder.conditions@.len() {
        &&& new == (App {
            builder: BuilderState { conditions: new.builder.conditions, ..old.builder },
            ..old
        })
        &&& new.builder.conditions@ == old.builder.conditions@.update(i as int, c)
    } else {
        new == old
    }
}

/// The customiser after an edit of join `i` (when there is one), and the
/// editor showing its SQL.
pub open spec fn join_edited(old: App, new: App, i: usize, j: JoinDef) -> bool {
    match old.customiser {
        Some(c) => if i < c.joins@.len() {
            exists|nc: QueryCustomiser|
                customiser_edited(old, new, c, nc) && nc == (QueryCustomiser { joins: nc.joins, ..c })
                    && #[trigger] nc.joins@ == c.joins@.update(i as int, j)
        } else {
            customiser_edited(old, new, c, c)
        },
        None => new == old,
    }
}

/// A drop at row `j` moves the dragged row there.
pub open spec fn drop_moves(a: App, j: usize) -> bool {
    a.scratch_drag_idx matches Some(i) && i != j && j < a.scratch_columns@.len()
}

/// A drop can be made: the dragged row, if it is to move, exists.
pub open spec fn drop_possible(a: App, j: usize) -> bool {
    drop_moves(a, j) ==> a.scratch_drag_idx->Some_0 < a.scratch_columns@.len()
}

/// What `update` can be asked: a drop only of a row that exists.
pub open spec fn accepts(a: App, msg: Message) -> bool {
    match msg {
        Message::ScratchDragDrop(j) => drop_possible(a, j),
        _ => true,
    }
}

/// The from-scratch tab after its tables or columns changed: the new ones,
/// a join plan for them, and the SQL for both.
pub open spec fn scratch_changed(
    old: App,
    new: App,
    tables: Seq<Seq<char>>,
    columns: Seq<Seq<char>>,
) -> bool {
    &&& new == (App {
        scratch_tables: new.scratch_tables,
        scratch_columns: new.scratch_columns,
        scratch_joins: new.scratch_joins,
        scratch_auto_added: new.scratch_auto_added,
        scratch_sql: new.scratch_sql,
        ..old
    })
    &&& new.scratch_tables.deep_view() == tables
    &&& new.scratch_columns.deep_view() == columns
    &&& scratch_planned(new)
}

/// What an action does to the state, and the outside work it asks for.
pub open spec fn step(old: App, msg: Message, new: App, eff: Effect) -> bool {
    match msg {
        Message::TemplateSelected(id) => eff is Nothing && template_chosen(old, id, new),
        Message::ParameterChanged(k, v) => eff is Nothing && new == (App {
            parameters: new.parameters,
            ..old
        }) && inserted(old.parameters@, new.parameters@, k@, v@),
        Message::GenerateQuery => eff is Nothing && query_generated(old, new),
        Message::CopyToClipboard => new == old && eff == Effect::WriteClipboard(old.sql_text),
        Message::SaveQuery => eff is Nothing && if trim(old.sql_text@).len() > 0 {
            new == (App { saved_queries: new.saved_queries, ..old }) && new.saved_queries@
                == old.saved_queries@.push(old.sql_text)
        } else {
            new == old
        },
        Message::SqlEdited(t) => eff is Nothing && new == (App { sql_text: t, ..old }),
        Message::OpenFile => new == old && eff is PickFile,
        Message::FileOpened(content) => eff is Nothing && match content {
            Some(t) => new == (App {
                sql_text: t,
                selected_template: None,
                parameters: new.parameters,
                error: None,
                ..old
            }) && new.parameters@.len() == 0,
            None => new == old,
        },
        Message::ToggleGroup(name) => eff is Nothing && new == (App {
            group_expanded: new.group_expanded,
            ..old
        }) && flags_view(new.group_expanded@) == flipped(flags_view(old.group_expanded@), name@),
        Message::FieldToggled(f, on) => eff is Nothing && match old.customiser {
            Some(c) => exists|nc: QueryCustomiser|
                customiser_edited(old, new, c, nc) && nc == (QueryCustomiser {
                    selected_fields: nc.selected_fields,
                    ..c
                }) && #[trigger] nc.selected_fields.deep_view() == toggled(
                    c.selected_fields.deep_view(),
                    f@,
                    on,
                ),
            None => new == old,
        },
        Message::CustomFieldInput(v) => eff is Nothing && match old.customiser {
            Some(c) => new == (App {
                customiser: Some(QueryCustomiser { new_field_input: v, ..c }),
                ..old
            }),
            None => new == old,
        },
        Message::AddCustomField => eff is Nothing && match old.customiser {
            Some(c) => {
                let f = trim(c.new_field_input@);
                if f.len() > 0 {
                    exists|nc: QueryCustomiser|
                        customiser_edited(old, new, c, nc) && nc == (QueryCustomiser {
                            available_columns: nc.available_columns,
                            selected_fields: nc.selected_fields,
                            new_field_input: nc.new_field_input,
                            ..c
                        }) && #[trigger] nc.available_columns.deep_view() == push_new(
                            c.available_columns.deep_view(),
                            f,
                        ) && nc.selected_fields.deep_view() == push_new(
                            c.selected_fields.deep_view(),
                            f,
                        ) && nc.new_field_input@.len() == 0
                } else {
                    customiser_edited(old, new, c, c)
                }
            },
            None => new == old,
        },
        Message::AddJoin => eff is Nothing && match old.customiser {
            Some(c) => exists|nc: QueryCustomiser|
                new == (App { customiser: Some(nc), ..old }) && nc == (QueryCustomiser {
                    joins: nc.joins,
                    ..c
                }) && #[trigger] nc.joins@.len() == c.joins@.len() + 1 && nc.joins@.take(
                    c.joins@.len() as int,
                ) == c.joins@ && nc.joins@.last().join_type == JoinType::Inner
                    && nc.joins@.last().table@.len() == 0 && nc.joins@.last().on_condition@.len()
                    == 0,
            None => new == old,
        },
        Message::RemoveJoin(i) => eff is Nothing && match old.customiser {
            Some(c) => if i < c.joins@.len() {
                exists|nc: QueryCustomiser|
                    customiser_edited(old, new, c, nc) && nc == (QueryCustomiser {
                        joins: nc.joins,
                        ..c
                    }) && #[trigger] nc.joins@ == c.joins@.remove(i as int)
            } else {
                customiser_edited(old, new, c, c)
            },
            None => new == old,
        },
        Message::JoinTypeChanged(i, t) => eff is Nothing && match old.customiser {
            Some(c) => if i < c.joins@.len() {
                join_edited(old, new, i, JoinDef { join_type: t, ..c.joins@[i as int] })
            } else {
                customiser_edited(old, new, c, c)
            },
            None => new == old,
        },
        Message::JoinTableChanged(i, t) => eff is Nothing && match old.customiser {
            Some(c) => if i < c.joins@.len() {
                join_edited(old, new, i, JoinDef { table: t, ..c.joins@[i as int] })
            } else {
                customiser_edited(old, new, c, c)
            },
            None => new == old,
        },
        Message::JoinConditionChanged(i, t) => eff is Nothing && match old.customiser {
            Some(c) => if i < c.joins@.len() {
                join_edited(old, new, i, JoinDef { on_condition: t, ..c.joins@[i as int] })
            } else {
                customiser_edited(old, new, c, c)
            },
            None => new == old,
        },
        Message::SetTheme(color, mode) => new == (App {
            theme_color: color,
            theme_mode: mode,
            ..old
        }) && saves_settings(new, eff),
        Message::FontIncrease => if old.font_size < FONT_MAX {
            new == (App { font_size: (old.font_size + 1) as u16, font_size_raw: new.font_size_raw, ..old })
                && new.font_size_raw@ == decimal(new.font_size as nat) && saves_settings(new, eff)
        } else {
            new == old && eff is Nothing
        },
        Message::FontDecrease => if old.font_size > FONT_MIN {
            new == (App { font_size: (old.font_size - 1) as u16, font_size_raw: new.font_size_raw, ..old })
                && new.font_size_raw@ == decimal(new.font_size as nat) && saves_settings(new, eff)
        } else {
            new == old && eff is Nothing
        },
        Message::FontSizeInput(raw) => new == (App {
            font_size: new.font_size,
            font_size_raw: raw,
            ..old
        }) && match font_size_taken(raw@) {
            Some(n) => new.font_size == n && saves_settings(new, eff),
            None => new.font_size == old.font_size && eff is Nothing,
        },
        Message::OpenBuilder => eff is Nothing && new == (App {
            builder: new.builder,
            view: AppView::Builder,
            ..old
        }) && builder_cleared(new.builder),
        Message::BuilderBack => eff is Nothing && new == (App {
            builder: new.builder,
            view: AppView::Main,
            ..old
        }) && builder_cleared(new.builder),
        Message::BuilderNameChanged(name) => eff is Nothing && new == (App {
            builder: BuilderState { template_name: name, save_error: None, ..old.builder },
            ..old
        }),
        Message::BuilderTableSelected(t) => eff is Nothing && new == (App {
            builder: BuilderState {
                selected_table: Some(t),
                selected_columns: new.builder.selected_columns,
                conditions: new.builder.conditions,
                save_error: None,
                ..old.builder
            },
            ..old
        }) && new.builder.selected_columns@.len() == 0 && new.builder.conditions@.len() == 0,
        Message::BuilderColumnToggled(col, on) => eff is Nothing && new == (App {
            builder: BuilderState { selected_columns: new.builder.selected_columns, ..old.builder },
            ..old
        }) && new.builder.selected_columns.deep_view() == toggled(
            old.builder.selected_columns.deep_view(),
            col@,
            on,
        ),
        Message::BuilderConditionAdded => {
            let n = old.builder.conditions@.len();
            &&& eff is Nothing
            &&& new == (App {
                builder: BuilderState { conditions: new.builder.conditions, ..old.builder },
                ..old
            })
            &&& new.builder.conditions@.len() == n + 1
            &&& new.builder.conditions@.take(n as int) == old.builder.conditions@
            &&& new.builder.conditions@[n as int].field is None
            &&& new.builder.conditions@[n as int].operator == WhereOperator::Eq
            &&& new.builder.conditions@[n as int].param_name@.len() == 0
        },
        Message::BuilderConditionRemoved(i) => eff is Nothing && if i
            < old.builder.conditions@.len() {
            new == (App {
                builder: BuilderState { conditions: new.builder.conditions, ..old.builder },
                ..old
            }) && new.builder.conditions@ == old.builder.conditions@.remove(i as int)
        } else {
            new == old
        },
        Message::BuilderConditionFieldChanged(i, f) => eff is Nothing && condition_edited(
            old,
            new,
            i,
            WhereCondition { field: Some(f), ..old.builder.conditions@[i as int] },
        ),
        Message::BuilderConditionOperatorChanged(i, op) => eff is Nothing && condition_edited(
            old,
            new,
            i,
            WhereCondition { operator: op, ..old.builder.conditions@[i as int] },
        ),
        Message::BuilderConditionParamChanged(i, name) => eff is Nothing && condition_edited(
            old,
            new,
            i,
            WhereCondition { param_name: name, ..old.builder.conditions@[i as int] },
        ),
        Message::BuilderSave => builder_saved(old, new, eff),
        Message::MainTabChanged(tab) => eff is Nothing && new == (App { main_tab: tab, ..old }),
        Message::ScratchTableToggled(t, on) => eff is Nothing && scratch_changed(
            old,
            new,
            toggled(old.scratch_tables.deep_view(), t@, on),
            if on {
                old.scratch_columns.deep_view()
            } else {
                without_prefixed(old.scratch_columns.deep_view(), t@ + "."@)
            },
        ),
        Message::ScratchColumnToggled(col, on) => eff is Nothing && scratch_changed(
            old,
            new,
            old.scratch_tables.deep_view(),
            toggled(old.scratch_columns.deep_view(), col@, on),
        ),
        Message::ScratchDragStart(i) => eff is Nothing && new == (App {
            scratch_drag_idx: Some(i),
            scratch_hover_idx: Some(i),
            ..old
        }),
        Message::ScratchDragHover(j) => eff is Nothing && if old.scratch_drag_idx is Some {
            new == (App { scratch_hover_idx: Some(j), ..old })
        } else {
            new == old
        },
        Message::ScratchDragDrop(j) => {
            let cleared = App { scratch_drag_idx: None, scratch_hover_idx: None, ..old };
            &&& eff is Nothing
            &&& if drop_moves(old, j) {
                let i = old.scratch_drag_idx->Some_0;
                scratch_changed(
                    cleared,
                    new,
                    old.scratch_tables.deep_view(),
                    old.scratch_columns.deep_view().remove(i as int).insert(
                        j as int,
                        old.scratch_columns.deep_view()[i as int],
                    ),
                )
            } else {
                new == cleared
            }
        },
        Message::ScratchDragCancel => eff is Nothing && new == (App {
            scratch_drag_idx: None,
            scratch_hover_idx: None,
            ..old
        }),
        Message::ScratchCopyToClipboard => new == old && eff == Effect::WriteClipboard(
            old.scratch_sql,
        ),
        Message::ScratchSqlEdited(t, pasted) => eff is Nothing && if pasted {
            let tables = sort_tables(old.schema, pasted_table_names(t@));
            let fields = sort_fields(old.schema, tables.0, pasted_fields(t@));
            &&& new == (App {
                scratch_sql: t,
                scratch_tables: new.scratch_tables,
                scratch_columns: new.scratch_columns,
                scratch_unknown_tables: new.scratch_unknown_tables,
                scratch_unknown_columns: new.scratch_unknown_columns,
                scratch_drag_idx: None,
                scratch_hover_idx: None,
                scratch_joins: new.scratch_joins,
                scratch_auto_added: new.scratch_auto_added,
                ..old
            })
            &&& new.scratch_tables.deep_view() == tables.0
            &&& new.scratch_unknown_tables.deep_view() == tables.1
            &&& new.scratch_columns.deep_view() == fields.0
            &&& new.scratch_unknown_columns.deep_view() == fields.1
            &&& is_join_plan(
                join_graph(),
                new.scratch_tables.deep_view(),
                path_view(new.scratch_joins@),
                new.scratch_auto_added.deep_view(),
            )
        } else {
            new == (App { scratch_sql: t, ..old })
        },
        Message::EmailSql(sql) => new == (App { email_error: None, ..old }) && if trim(sql@).len()
            > 0 {
            eff matches Effect::OpenMailto(uri) && uri@ == mailto_link(encode_utf8(sql@))
        } else {
            eff is Nothing
        },
        Message::EmailOpened => eff is Nothing && new == (App { email_error: None, ..old }),
        Message::EmailFailed(e) => eff is Nothing && new == (App {
            email_error: new.email_error,
            ..old
        }) && (new.email_error matches Some(m) && m@ == "Could not open email client: "@ + e@),
        Message::ResetTemplates => eff is Nothing && new == (App {
            selected_template: None,
            parameters: new.parameters,
            sql_text: new.sql_text,
            customiser: None,
            error: None,
            ..old
        }) && new.parameters@.len() == 0 && new.sql_text@.len() == 0,
        Message::ResetScratch => eff is Nothing && new == (App {
            scratch_tables: new.scratch_tables,
            scratch_columns: new.scratch_columns,
            scratch_joins: new.scratch_joins,
            scratch_auto_added: new.scratch_auto_added,
            scratch_sql: new.scratch_sql,
            scratch_drag_idx: None,
            scratch_hover_idx: None,
            scratch_unknown_tables: new.scratch_unknown_tables,
            scratch_unknown_columns: new.scratch_unknown_columns,
            ..old
        }) && new.scratch_tables@.len() == 0 && new.scratch_columns@.len() == 0
            && new.scratch_joins@.len() == 0 && new.scratch_auto_added@.len() == 0
            && new.scratch_sql@.len() == 0 && new.scratch_unknown_tables@.len() == 0
            && new.scratch_unknown_columns@.len() == 0,
        Message::Noop => eff is Nothing && new == old,
    }
}

// ── Lookups ──────────────────────────────────────────────────────────────────

/// The position of the first template with id `id`.
fn find_template(all: &Vec<QueryTemplate>, id: &String) -> (r: Option<usize>)
    ensures
        match r {
            Some(k) => first_with_id(template_views(all@), id@, 0) == Some(k as int) && k
                < all@.len(),
            None => first_with_id(template_views(all@), id@, 0) is None,
        },
{
    let mut i: usize = 0;
    while i < all.len()
        invariant
            i <= all.len(),
            first_with_id(template_views(all@), id@, 0) == first_with_id(
                template_views(all@),
                id@,
                i as int,
            ),
        decreases all.len() - i,
    {
        assert(template_views(all@)[i as int] == all[i as int]@);
        if all[i].id == *id {
            return Some(i);
        }
        i = i + 1;
    }
    None
}

/// The position of the flag of group `name`.
fn find_flag(flags: &Vec<(String, bool)>, name: &String) -> (r: Option<usize>)
    ensures
        match r {
            Some(k) => flag_index(flags_view(flags@), name@, 0) == Some(k as int) && k
                < flags@.len(),
            None => flag_index(flags_view(flags@), name@, 0) is None,
        },
{
    let mut i: usize = 0;
    while i < flags.len()
        invariant
            i <= flags.len(),
            flag_index(flags_view(flags@), name@, 0) == flag_index(
                flags_view(flags@),
                name@,
                i as int,
            ),
        decreases flags.len() - i,
    {
        assert(flags_view(flags@)[i as int].0 == flags[i as int].0@);
        if flags[i].0 == *name {
            return Some(i);
        }
        i = i + 1;
    }
    None
}

impl App {
    /// The state at start-up, from the saved settings, the templates read
    /// from files, the user's saved templates and the schema.
    pub fn new(
        settings: Settings,
        file_templates: Vec<QueryTemplate>,
        user_templates: Vec<UserTemplate>,
        schema: Schema,
    ) -> (a: App)
        ensures
            a.selected_template is None,
            a.parameters@.len() == 0,
            a.sql_text@.len() == 0,
            a.customiser is None,
            a.error is None,
            a.saved_queries@.len() == 0,
            a.group_expanded@.len() == 0,
            a.file_templates == file_templates,
            settings_of(a) == settings,
            a.font_size_raw@ == decimal(settings.font_size as nat),
            a.user_templates == user_templates,
            a.view == AppView::Main,
            builder_cleared(a.builder),
            a.main_tab == MainTab::Templates,
            a.scratch_tables@.len() == 0,
            a.scratch_columns@.len() == 0,
            a.scratch_joins@.len() == 0,
            a.scratch_auto_added@.len() == 0,
            a.scratch_sql@.len() == 0,
            a.scratch_drag_idx is None,
            a.scratch_hover_idx is None,
            a.email_error is None,
            a.scratch_unknown_tables@.len() == 0,
            a.scratch_unknown_columns@.len() == 0,
            a.schema == schema,
    {
        App {
            selected_template: None,
            parameters: ParamMap::new(),
            sql_text: String::new(),
            customiser: None,
            error: None,
            saved_queries: Vec::new(),
            group_expanded: Vec::new(),
            file_templates,
            font_size: settings.font_size,
            font_size_raw: decimal_string(settings.font_size as usize),
            theme_color: settings.theme_color,
            theme_mode: settings.theme_mode,
            user_templates,
            view: AppView::Main,
            builder: BuilderState::default(),
            main_tab: MainTab::Templates,
            scratch_tables: Vec::new(),
            scratch_columns: Vec::new(),
            scratch_joins: Vec::new(),
            scratch_auto_added: Vec::new(),
            scratch_sql: String::new(),
            scratch_drag_idx: None,
            scratch_hover_idx: None,
            email_error: None,
            scratch_unknown_tables: Vec::new(),
            scratch_unknown_columns: Vec::new(),
            schema,
        }
    }

    /// The window's title.
    pub fn title(&self) -> (r: String)
        ensures
            r@ == window_title(),
    {
        String::from_str("STM Query Builder")
    }

    /// The settings to save.
    pub fn settings(&self) -> (r: Settings)
        ensures
            r == settings_of(*self),
    {
        Settings { font_size: self.font_size, theme_color: self.theme_color, theme_mode: self.theme_mode }
    }

    /// Every template the window lists: the built-in ones, those read from
    /// files, then the user's own under "My Templates".
    pub fn all_templates(&self) -> (r: Vec<QueryTemplate>)
        ensures
            template_views(r@) == listed_templates(*self),
    {
        let mut t = QueryTemplate::builtin();
        let ghost files = template_views(self.file_templates@);
        let ghost users = self.user_templates@.map_values(|u: UserTemplate| as_listed(u));
        let mut i: usize = 0;
        while i < self.file_templates.len()
            invariant
                i <= self.file_templates.len(),
                files == template_views(self.file_templates@),
                template_views(t@) == builtin_templates() + files.take(i as int),
            decreases self.file_templates.len() - i,
        {
            let ghost before = t@;
            t.push(self.file_templates[i].clone());
            assert(files.take(i + 1) =~= files.take(i as int).push(self.file_templates[i as int]@));
            assert(template_views(t@) =~= template_views(before).push(self.file_templates[i as int]@));
            i = i + 1;
        }
        assert(files.take(i as int) =~= files);
        let mut j: usize = 0;
        while j < self.user_templates.len()
            invariant
                j <= self.user_templates.len(),
                files == template_views(self.file_templates@),
                users == self.user_templates@.map_values(|u: UserTemplate| as_listed(u)),
                template_views(t@) == builtin_templates() + files + users.take(j as int),
            decreases self.user_templates.len() - j,
        {
            let ghost before = t@;
            let q = self.user_templates[j].to_query_template();
            t.push(q);
            assert(users.take(j + 1) =~= users.take(j as int).push(as_listed(self.user_templates[j as int])));
            assert(template_views(t@) =~= template_views(before).push(q@));
            j = j + 1;
        }
        assert(users.take(j as int) =~= users);
        t
    }

    /// Whether template group `name` is expanded.
    pub fn group_is_expanded(&self, name: &String) -> (r: bool)
        ensures
            r == group_expanded_in(flags_view(self.group_expanded@), name@),
    {
        match find_flag(&self.group_expanded, name) {
            Some(i) => self.group_expanded[i].1,
            None => true,
        }
    }
}

// ── The templates tab ────────────────────────────────────────────────────────

impl App {
    fn select_template(&mut self, id: String)
        ensures
            template_chosen(*old(self), id, *final(self)),
    {
        let all = self.all_templates();
        self.parameters.clear();
        self.error = None;
        match find_template(&all, &id) {
            Some(k) => {
                assert(template_views(all@)[k as int] == all[k as int]@);
                let c = QueryCustomiser::from_template(&all[k], &self.schema);
                self.sql_text = c.build_sql();
                self.customiser = Some(c);
            },
            None => {
                self.customiser = None;
                self.sql_text = String::new();
            },
        }
        self.selected_template = Some(id);
    }

    fn generate(&mut self)
        ensures
            query_generated(*old(self), *final(self)),
    {
        match &self.customiser {
            Some(c) => {
                let base = c.build_sql();
                let out = substitute_params(base.as_str(), &self.parameters);
                self.sql_text = string_from_chars(&out);
                self.error = None;
            },
            None => match &self.selected_template {
                Some(id) => {
                    let all = self.all_templates();
                    let q = QueryParams { template_id: id.clone(), parameters: self.parameters.copy() };
                    match generate_query(q, &all) {
                        Ok(sql) => {
                            self.sql_text = sql;
                            self.error = None;
                        },
                        Err(e) => {
                            self.error = Some(e);
                        },
                    }
                },
                None => {},
            },
        }
    }

    fn save_query(&mut self)
        ensures
            step(*old(self), Message::SaveQuery, *final(self), Effect::Nothing),
    {
        if !is_blank(self.sql_text.as_str()) {
            let t = self.sql_text.clone();
            self.saved_queries.push(t);
        }
    }

    fn file_opened(&mut self, content: Option<String>)
        ensures
            step(*old(self), Message::FileOpened(content), *final(self), Effect::Nothing),
    {
        match content {
            Some(t) => {
                self.sql_text = t;
                self.selected_template = None;
                self.parameters.clear();
                self.error = None;
            },
            None => {},
        }
    }

    fn toggle_group(&mut self, name: String)
        ensures
            step(*old(self), Message::ToggleGroup(name), *final(self), Effect::Nothing),
    {
        let ghost before = flags_view(self.group_expanded@);
        match find_flag(&self.group_expanded, &name) {
            Some(i) => {
                let b = self.group_expanded[i].1;
                self.group_expanded.set(i, (name, !b));
                assert(flags_view(self.group_expanded@) =~= before.update(i as int, (name@, !b)));
            },
            None => {
                self.group_expanded.push((name, false));
                assert(flags_view(self.group_expanded@) =~= before.push((name@, false)));
            },
        }
    }

    fn reset_templates(&mut self)
        ensures
            step(*old(self), Message::ResetTemplates, *final(self), Effect::Nothing),
    {
        self.selected_template = None;
        self.parameters.clear();
        self.sql_text = String::new();
        self.customiser = None;
        self.error = None;
    }
}

/// A change to one field of a join.
enum JoinEdit {
    Kind(JoinType),
    Table(String),
    Condition(String),
}

/// A join with an edit applied.
spec fn edited_join(j: JoinDef, e: JoinEdit) -> JoinDef {
    match e {
        JoinEdit::Kind(t) => JoinDef { join_type: t, ..j },
        JoinEdit::Table(t) => JoinDef { table: t, ..j },
        JoinEdit::Condition(t) => JoinDef { on_condition: t, ..j },
    }
}

// ── The customiser ───────────────────────────────────────────────────────────

impl App {
    fn field_toggled(&mut self, f: String, on: bool)
        ensures
            step(*old(self), Message::FieldToggled(f, on), *final(self), Effect::Nothing),
    {
        match self.customiser.take() {
            Some(c0) => {
                let mut c = c0;
                toggle_entry(&mut c.selected_fields, f, on);
                self.sql_text = c.build_sql();
                let ghost nc = c;
                self.customiser = Some(c);
                assert(nc.selected_fields.deep_view() == toggled(
                    c0.selected_fields.deep_view(),
                    f@,
                    on,
                ));
                assert(customiser_edited(*old(self), *self, c0, nc));
            },
            None => {},
        }
    }

    fn custom_field_input(&mut self, v: String)
        ensures
            step(*old(self), Message::CustomFieldInput(v), *final(self), Effect::Nothing),
    {
        match self.customiser.take() {
            Some(c0) => {
                let mut c = c0;
                c.new_field_input = v;
                self.customiser = Some(c);
            },
            None => {},
        }
    }

    fn add_custom_field(&mut self)
        ensures
            step(*old(self), Message::AddCustomField, *final(self), Effect::Nothing),
    {
        match self.customiser.take() {
            Some(c0) => {
                let mut c = c0;
                let f = trim_string(c.new_field_input.as_str());
                if !f.as_str().is_empty() {
                    push_unique(&mut c.available_columns, f.clone());
                    push_unique(&mut c.selected_fields, f);
                    c.new_field_input = String::new();
                }
                self.sql_text = c.build_sql();
                let ghost nc = c;
                self.customiser = Some(c);
                proof {
                    if trim(c0.new_field_input@).len() > 0 {
                        assert(nc.available_columns.deep_view() == push_new(
                            c0.available_columns.deep_view(),
                            trim(c0.new_field_input@),
                        ));
                    }
                }
                assert(customiser_edited(*old(self), *self, c0, nc));
            },
            None => {},
        }
    }

    fn add_join(&mut self)
        ensures
            step(*old(self), Message::AddJoin, *final(self), Effect::Nothing),
    {
        match self.customiser.take() {
            Some(c0) => {
                let mut c = c0;
                c.joins.push(JoinDef::default());
                let ghost nc = c;
                self.customiser = Some(c);
                assert(nc.joins@.take(c0.joins@.len() as int) =~= c0.joins@);
                assert(nc.joins@.len() == c0.joins@.len() + 1);
            },
            None => {},
        }
    }

    fn remove_join(&mut self, i: usize)
        ensures
            step(*old(self), Message::RemoveJoin(i), *final(self), Effect::Nothing),
    {
        match self.customiser.take() {
            Some(c0) => {
                let mut c = c0;
                if i < c.joins.len() {
                    c.joins.remove(i);
                }
                self.sql_text = c.build_sql();
                let ghost nc = c;
                self.customiser = Some(c);
                proof {
                    if i < c0.joins@.len() {
                        assert(nc.joins@ == c0.joins@.remove(i as int));
                    }
                }
                assert(customiser_edited(*old(self), *self, c0, nc));
            },
            None => {},
        }
    }

    /// Applies `edit` to join `i`, and shows the new SQL.
    fn edit_join(&mut self, i: usize, edit: JoinEdit)
        ensures
            match old(self).customiser {
                Some(c) => if i < c.joins@.len() {
                    join_edited(*old(self), *final(self), i, edited_join(c.joins@[i as int], edit))
                } else {
                    customiser_edited(*old(self), *final(self), c, c)
                },
                None => *final(self) == *old(self),
            },
    {
        match self.customiser.take() {
            Some(c0) => {
                let mut c = c0;
                if i < c.joins.len() {
                    let mut j = c.joins.remove(i);
                    match edit {
                        JoinEdit::Kind(t) => j.join_type = t,
                        JoinEdit::Table(t) => j.table = t,
                        JoinEdit::Condition(t) => j.on_condition = t,
                    }
                    let ghost nj = j;
                    c.joins.insert(i, j);
                    assert(c.joins@ =~= c0.joins@.update(i as int, nj));
                }
                self.sql_text = c.build_sql();
                let ghost nc = c;
                self.customiser = Some(c);
                assert(customiser_edited(*old(self), *self, c0, nc));
            },
            None => {},
        }
    }
}

// ── Settings ─────────────────────────────────────────────────────────────────

impl App {
    fn set_theme(&mut self, color: ThemeColor, mode: ThemeMode) -> (eff: Effect)
        ensures
            step(*old(self), Message::SetTheme(color, mode), *final(self), eff),
    {
        self.theme_color = color;
        self.theme_mode = mode;
        Effect::SaveSettings(self.settings())
    }

    fn font_increase(&mut self) -> (eff: Effect)
        ensures
            step(*old(self), Message::FontIncrease, *final(self), eff),
    {
        if self.font_size < FONT_MAX {
            self.font_size = self.font_size + 1;
            self.font_size_raw = decimal_string(self.font_size as usize);
            Effect::SaveSettings(self.settings())
        } else {
            Effect::Nothing
        }
    }

    fn font_decrease(&mut self) -> (eff: Effect)
        ensures
            step(*old(self), Message::FontDecrease, *final(self), eff),
    {
        if self.font_size > FONT_MIN {
            self.font_size = self.font_size - 1;
            self.font_size_raw = decimal_string(self.font_size as usize);
            Effect::SaveSettings(self.settings())
        } else {
            Effect::Nothing
        }
    }

    fn font_size_input(&mut self, raw: String) -> (eff: Effect)
        ensures
            step(*old(self), Message::FontSizeInput(raw), *final(self), eff),
    {
        let t = trim_string(raw.as_str());
        let parsed = parse_u16(t.as_str());
        self.font_size_raw = raw;
        match parsed {
            Some(n) => {
                if FONT_MIN <= n && n <= FONT_MAX {
                    self.font_size = n;
                    Effect::SaveSettings(self.settings())
                } else {
                    Effect::Nothing
                }
            },
            None => Effect::Nothing,
        }
    }
}

// ── The template builder ─────────────────────────────────────────────────────

impl App {
    fn open_builder(&mut self, view: AppView)
        ensures
            *final(self) == (App { builder: final(self).builder, view: view, ..*old(self) }),
            builder_cleared(final(self).builder),
    {
        self.builder = BuilderState::default();
        self.view = view;
    }

    fn builder_table_selected(&mut self, t: String)
        ensures
            step(*old(self), Message::BuilderTableSelected(t), *final(self), Effect::Nothing),
    {
        self.builder.selected_table = Some(t);
        self.builder.selected_columns.clear();
        self.builder.conditions.clear();
        self.builder.save_error = None;
    }

    fn builder_condition_added(&mut self)
        ensures
            step(*old(self), Message::BuilderConditionAdded, *final(self), Effect::Nothing),
    {
        self.builder.conditions.push(WhereCondition::default());
        assert(self.builder.conditions@.take(old(self).builder.conditions@.len() as int)
            =~= old(self).builder.conditions@);
    }

    fn builder_condition_removed(&mut self, i: usize)
        ensures
            step(*old(self), Message::BuilderConditionRemoved(i), *final(self), Effect::Nothing),
    {
        if i < self.builder.conditions.len() {
            self.builder.conditions.remove(i);
        }
    }

    /// Applies `edit` to condition `i`, when there is one.
    fn edit_condition(&mut self, i: usize, edit: ConditionEdit)
        ensures
            condition_edited(
                *old(self),
                *final(self),
                i,
                edited_condition(old(self).builder.conditions@[i as int], edit),
            ),
    {
        if i < self.builder.conditions.len() {
            let ghost before = self.builder.conditions@;
            let mut c = self.builder.conditions.remove(i);
            match edit {
                ConditionEdit::Field(f) => c.field = Some(f),
                ConditionEdit::Operator(op) => c.operator = op,
                ConditionEdit::Param(p) => c.param_name = p,
            }
            let ghost nc = c;
            self.builder.conditions.insert(i, c);
            assert(self.builder.conditions@ =~= before.update(i as int, nc));
        }
    }

    fn builder_save(&mut self) -> (eff: Effect)
        ensures
            step(*old(self), Message::BuilderSave, *final(self), eff),
    {
        match self.builder.validate() {
            Err(e) => {
                self.builder.save_error = Some(e);
                Effect::Nothing
            },
            Ok(()) => {
                let sql = match self.builder.build_sql() {
                    Some(q) => q,
                    None => String::new(),
                };
                let mut description = String::new();
                push_all(&mut description, "Custom query on ");
                match &self.builder.selected_table {
                    Some(t) => push_all(&mut description, t.as_str()),
                    None => {},
                }
                let ghost table = match old(self).builder.selected_table {
                    Some(t) => t@,
                    None => Seq::<char>::empty(),
                };
                assert(description@ =~= "Custom query on "@ + table);
                let t = UserTemplate {
                    id: self.builder.build_template_id(),
                    name: self.builder.template_name.clone(),
                    description,
                    sql,
                };
                self.user_templates.push(t);
                assert(self.user_templates@.take(old(self).user_templates@.len() as int)
                    =~= old(self).user_templates@);
                self.view = AppView::Main;
                self.builder = BuilderState::default();
                Effect::SaveUserTemplates
            },
        }
    }
}

/// A change to one field of a WHERE condition.
enum ConditionEdit {
    Field(String),
    Operator(WhereOperator),
    Param(String),
}

/// A condition with an edit applied.
spec fn edited_condition(c: WhereCondition, e: ConditionEdit) -> WhereCondition {
    match e {
        ConditionEdit::Field(f) => WhereCondition { field: Some(f), ..c },
        ConditionEdit::Operator(op) => WhereCondition { operator: op, ..c },
        ConditionEdit::Param(p) => WhereCondition { param_name: p, ..c },
    }
}

// ── The from-scratch tab ─────────────────────────────────────────────────────

impl App {
    /// Plans the joins for the ticked tables and rebuilds the SQL.
    fn scratch_recompute(&mut self)
        ensures
            *final(self) == (App {
                scratch_joins: final(self).scratch_joins,
                scratch_auto_added: final(self).scratch_auto_added,
                scratch_sql: final(self).scratch_sql,
                ..*old(self)
            }),
            scratch_planned(*final(self)),
    {
        let (joins, auto_added) = plan_joins(&self.scratch_tables);
        self.scratch_joins = joins;
        self.scratch_auto_added = auto_added;
        self.scratch_sql = build_scratch_sql(&self.scratch_joins, &self.scratch_columns);
    }

    fn scratch_table_toggled(&mut self, t: String, on: bool)
        ensures
            step(*old(self), Message::ScratchTableToggled(t, on), *final(self), Effect::Nothing),
    {
        if on {
            push_unique(&mut self.scratch_tables, t);
        } else {
            let mut prefix = t.clone();
            push_all(&mut prefix, ".");
            remove_entry(&mut self.scratch_tables, &t);
            remove_prefixed(&mut self.scratch_columns, prefix.as_str());
        }
        self.scratch_recompute();
    }

    fn scratch_column_toggled(&mut self, col: String, on: bool)
        ensures
            step(*old(self), Message::ScratchColumnToggled(col, on), *final(self), Effect::Nothing),
    {
        toggle_entry(&mut self.scratch_columns, col, on);
        self.scratch_recompute();
    }

    fn scratch_drag_drop(&mut self, j: usize)
        requires
            drop_possible(*old(self), j),
        ensures
            step(*old(self), Message::ScratchDragDrop(j), *final(self), Effect::Nothing),
    {
        let dragged = self.scratch_drag_idx;
        self.scratch_drag_idx = None;
        self.scratch_hover_idx = None;
        match dragged {
            Some(i) => {
                if i != j && j < self.scratch_columns.len() {
                    let ghost before = self.scratch_columns.deep_view();
                    let item = self.scratch_columns.remove(i);
                    self.scratch_columns.insert(j, item);
                    assert(self.scratch_columns.deep_view() =~= before.remove(i as int).insert(
                        j as int,
                        before[i as int],
                    ));
                    self.scratch_recompute();
                }
            },
            None => {},
        }
    }

    fn scratch_sql_edited(&mut self, t: String, pasted: bool)
        ensures
            step(*old(self), Message::ScratchSqlEdited(t, pasted), *final(self), Effect::Nothing),
    {
        if pasted {
            let r = recognise_pasted_sql(t.as_str(), &self.schema);
            self.scratch_sql = t;
            self.scratch_tables = r.tables;
            self.scratch_columns = r.columns;
            self.scratch_unknown_tables = r.unknown_tables;
            self.scratch_unknown_columns = r.unknown_columns;
            self.scratch_drag_idx = None;
            self.scratch_hover_idx = None;
            let (joins, auto_added) = plan_joins(&self.scratch_tables);
            self.scratch_joins = joins;
            self.scratch_auto_added = auto_added;
        } else {
            self.scratch_sql = t;
        }
    }

    fn reset_scratch(&mut self)
        ensures
            step(*old(self), Message::ResetScratch, *final(self), Effect::Nothing),
    {
        self.scratch_tables = Vec::new();
        self.scratch_columns = Vec::new();
        self.scratch_joins = Vec::new();
        self.scratch_auto_added = Vec::new();
        self.scratch_sql = String::new();
        self.scratch_drag_idx = None;
        self.scratch_hover_idx = None;
        self.scratch_unknown_tables = Vec::new();
        self.scratch_unknown_columns = Vec::new();
    }
}

// ── Mail ─────────────────────────────────────────────────────────────────────

impl App {
    fn email_sql(&mut self, sql: String) -> (eff: Effect)
        ensures
            step(*old(self), Message::EmailSql(sql), *final(self), eff),
    {
        self.email_error = None;
        if is_blank(sql.as_str()) {
            Effect::Nothing
        } else {
            Effect::OpenMailto(mailto_uri(sql.as_str()))
        }
    }

    fn email_failed(&mut self, e: String)
        ensures
            step(*old(self), Message::EmailFailed(e), *final(self), Effect::Nothing),
    {
        let mut m = String::new();
        push_all(&mut m, "Could not open email client: ");
        push_all(&mut m, e.as_str());
        self.email_error = Some(m);
    }
}

// ── Dispatch ─────────────────────────────────────────────────────────────────

impl App {
    /// Carries out a user action, and returns the outside work it asks for.
    pub fn update(&mut self, msg: Message) -> (eff: Effect)
        requires
            accepts(*old(self), msg),
        ensures
            step(*old(self), msg, *final(self), eff),
    {
        match msg {
            Message::TemplateSelected(id) => {
                self.select_template(id);
                Effect::Nothing
            },
            Message::ParameterChanged(k, v) => {
                self.parameters.insert(k, v);
                Effect::Nothing
            },
            Message::GenerateQuery => {
                self.generate();
                Effect::Nothing
            },
            Message::CopyToClipboard => Effect::WriteClipboard(self.sql_text.clone()),
            Message::SaveQuery => {
                self.save_query();
                Effect::Nothing
            },
            Message::SqlEdited(t) => {
                self.sql_text = t;
                Effect::Nothing
            },
            Message::OpenFile => Effect::PickFile,
            Message::FileOpened(content) => {
                self.file_opened(content);
                Effect::Nothing
            },
            Message::ToggleGroup(name) => {
                self.toggle_group(name);
                Effect::Nothing
            },
            Message::FieldToggled(f, on) => {
                self.field_toggled(f, on);
                Effect::Nothing
            },
            Message::CustomFieldInput(v) => {
                self.custom_field_input(v);
                Effect::Nothing
            },
            Message::AddCustomField => {
                self.add_custom_field();
                Effect::Nothing
            },
            Message::AddJoin => {
                self.add_join();
                Effect::Nothing
            },
            Message::RemoveJoin(i) => {
                self.remove_join(i);
                Effect::Nothing
            },
            Message::JoinTypeChanged(i, t) => {
                self.edit_join(i, JoinEdit::Kind(t));
                Effect::Nothing
            },
            Message::JoinTableChanged(i, t) => {
                self.edit_join(i, JoinEdit::Table(t));
                Effect::Nothing
            },
            Message::JoinConditionChanged(i, t) => {
                self.edit_join(i, JoinEdit::Condition(t));
                Effect::Nothing
            },
            Message::SetTheme(color, mode) => self.set_theme(color, mode),
            Message::FontIncrease => self.font_increase(),
            Message::FontDecrease => self.font_decrease(),
            Message::FontSizeInput(raw) => self.font_size_input(raw),
            Message::OpenBuilder => {
                self.open_builder(AppView::Builder);
                Effect::Nothing
            },
            Message::BuilderBack => {
                self.open_builder(AppView::Main);
                Effect::Nothing
            },
            Message::BuilderNameChanged(name) => {
                self.builder.template_name = name;
                self.builder.save_error = None;
                Effect::Nothing
            },
            Message::BuilderTableSelected(t) => {
                self.builder_table_selected(t);
                Effect::Nothing
            },
            Message::BuilderColumnToggled(col, on) => {
                toggle_entry(&mut self.builder.selected_columns, col, on);
                Effect::Nothing
            },
            Message::BuilderConditionAdded => {
                self.builder_condition_added();
                Effect::Nothing
            },
            Message::BuilderConditionRemoved(i) => {
                self.builder_condition_removed(i);
                Effect::Nothing
            },
            Message::BuilderConditionFieldChanged(i, f) => {
                self.edit_condition(i, ConditionEdit::Field(f));
                Effect::Nothing
            },
            Message::BuilderConditionOperatorChanged(i, op) => {
                self.edit_condition(i, ConditionEdit::Operator(op));
                Effect::Nothing
            },
            Message::BuilderConditionParamChanged(i, p) => {
                self.edit_condition(i, ConditionEdit::Param(p));
                Effect::Nothing
            },
            Message::BuilderSave => self.builder_save(),
            Message::MainTabChanged(tab) => {
                self.main_tab = tab;
                Effect::Nothing
            },
            Message::ScratchTableToggled(t, on) => {
                self.scratch_table_toggled(t, on);
                Effect::Nothing
            },
            Message::ScratchColumnToggled(col, on) => {
                self.scratch_column_toggled(col, on);
                Effect::Nothing
            },
            Message::ScratchDragStart(i) => {
                self.scratch_drag_idx = Some(i);
                self.scratch_hover_idx = Some(i);
                Effect::Nothing
            },
            Message::ScratchDragHover(j) => {
                if self.scratch_drag_idx.is_some() {
                    self.scratch_hover_idx = Some(j);
                }
                Effect::Nothing
            },
            Message::ScratchDragDrop(j) => {
                self.scratch_drag_drop(j);
                Effect::Nothing
            },
            Message::ScratchDragCancel => {
                self.scratch_drag_idx = None;
                self.scratch_hover_idx = None;
                Effect::Nothing
            },
            Message::ScratchCopyToClipboard => Effect::WriteClipboard(self.scratch_sql.clone()),
            Message::ScratchSqlEdited(t, pasted) => {
                self.scratch_sql_edited(t, pasted);
                Effect::Nothing
            },
            Message::EmailSql(sql) => self.email_sql(sql),
            Message::EmailOpened => {
                self.email_error = None;
                Effect::Nothing
            },
            Message::EmailFailed(e) => {
                self.email_failed(e);
                Effect::Nothing
            },
            Message::ResetTemplates => {
                self.reset_templates();
                Effect::Nothing
            },
            Message::ResetScratch => {
                self.reset_scratch();
                Effect::Nothing
            },
            Message::Noop => Effect::Nothing,
        }
    }
}

// ── What the window shows ────────────────────────────────────────────────────

/// The parameter rows of the editor: each placeholder key of the chosen
/// template, in order, with the value typed for it (empty when none).
pub open spec fn parameter_rows_of(a: App) -> Seq<(Seq<char>, Seq<char>)> {
    match a.selected_template {
        Some(id) => match first_with_id(listed_templates(a), id@, 0) {
            Some(k) => placeholder_keys(listed_templates(a)[k].sql).map_values(
                |key: Seq<char>| parameter_row(a.parameters@, key),
            ),
            None => Seq::empty(),
        },
        None => Seq::empty(),
    }
}

/// A parameter key with the value typed for it, or nothing.
pub open spec fn parameter_row(entries: Seq<(Seq<char>, Seq<char>)>, key: Seq<char>) -> (
    Seq<char>,
    Seq<char>,
) {
    (
        key,
        match value_of(entries, key) {
            Some(v) => v,
            None => Seq::empty(),
        },
    )
}

/// A `TABLE.COLUMN` name cut at its first `.`; a name without one has no table.
pub open spec fn split_at_dot(s: Seq<char>) -> (Seq<char>, Seq<char>) {
    match first_dot(s, 0) {
        Some(d) => (s.take(d), s.skip(d + 1)),
        None => (Seq::empty(), s),
    }
}

/// A row of the column-order list.
pub struct ColumnRow {
    pub table: String,
    pub column: String,
    /// Named in pasted SQL but not known.
    pub unknown: bool,
    /// The row being dragged.
    pub dragging: bool,
    /// The row a dragged row would be dropped on.
    pub target: bool,
}

/// A row as text and flags.
pub open spec fn row_view(r: ColumnRow) -> (Seq<char>, Seq<char>, bool, bool, bool) {
    (r.table@, r.column@, r.unknown, r.dragging, r.target)
}

/// The row at position `i` for the column `name`: unknown columns are
/// flagged and can be neither dragged nor dropped on.
pub open spec fn column_row(a: App, i: int, name: Seq<char>) -> (Seq<char>, Seq<char>, bool, bool, bool) {
    let unknown = a.scratch_unknown_columns.deep_view().contains(name);
    let dragging = !unknown && (a.scratch_drag_idx matches Some(d) && d == i);
    let target = !unknown && a.scratch_drag_idx is Some && (a.scratch_hover_idx matches Some(h)
        && h == i) && !dragging;
    (split_at_dot(name).0, split_at_dot(name).1, unknown, dragging, target)
}

/// The column-order list: the chosen columns, then the unknown ones.
pub open spec fn column_rows_of(a: App) -> Seq<(Seq<char>, Seq<char>, bool, bool, bool)> {
    let names = a.scratch_columns.deep_view() + a.scratch_unknown_columns.deep_view();
    Seq::new(names.len(), |i: int| column_row(a, i, names[i]))
}

/// A column offered under a table of the plan.
pub struct ColumnChoice {
    /// `TABLE.COLUMN`, as the selection holds it.
    pub qualified: String,
    pub name: String,
    pub label: String,
    pub checked: bool,
}

/// The columns offered for one table of the plan.
pub struct ColumnGroup {
    pub table: String,
    pub label: String,
    pub auto_added: bool,
    pub columns: Vec<ColumnChoice>,
}

/// A column choice as text and flag.
pub open spec fn choice_view(c: ColumnChoice) -> (Seq<char>, Seq<char>, Seq<char>, bool) {
    (c.qualified@, c.name@, c.label@, c.checked)
}

/// A column group as text, flag and choices.
pub open spec fn group_view(g: ColumnGroup) -> (
    Seq<char>,
    Seq<char>,
    bool,
    Seq<(Seq<char>, Seq<char>, Seq<char>, bool)>,
) {
    (g.table@, g.label@, g.auto_added, g.columns@.map_values(|c: ColumnChoice| choice_view(c)))
}

/// The columns of a known table, each qualified and ticked when chosen.
pub open spec fn choices_of(a: App, t: TableInfo) -> Seq<(Seq<char>, Seq<char>, Seq<char>, bool)> {
    t.columns@.map_values(
        |c: ColumnInfo|
            (
                qualified(t.name@, c.name@),
                c.name@,
                c.label@,
                a.scratch_columns.deep_view().contains(qualified(t.name@, c.name@)),
            ),
    )
}

/// The column groups for the tables `names` of the plan, in order, skipping
/// the tables the schema does not know.
pub open spec fn groups_for(a: App, names: Seq<Seq<char>>) -> Seq<
    (Seq<char>, Seq<char>, bool, Seq<(Seq<char>, Seq<char>, Seq<char>, bool)>),
>
    decreases names.len(),
{
    if names.len() == 0 {
        Seq::empty()
    } else {
        let before = groups_for(a, names.drop_last());
        match table_index(a.schema, names.last()) {
            Some(k) => {
                let t = a.schema.tables@[k];
                before.push(
                    (
                        t.name@,
                        t.label@,
                        a.scratch_auto_added.deep_view().contains(names.last()),
                        choices_of(a, t),
                    ),
                )
            },
            None => before,
        }
    }
}

/// A table offered on the from-scratch tab.
pub struct TableChoice {
    pub name: String,
    pub label: String,
    pub checked: bool,
    pub auto_added: bool,
}

/// A table choice as text and flags.
pub open spec fn table_choice_view(c: TableChoice) -> (Seq<char>, Seq<char>, bool, bool) {
    (c.name@, c.label@, c.checked, c.auto_added)
}

/// Every known table, ticked when chosen, flagged when the plan added it.
pub open spec fn table_choices_of(a: App) -> Seq<(Seq<char>, Seq<char>, bool, bool)> {
    a.schema.tables@.map_values(
        |t: TableInfo|
            (
                t.name@,
                t.label@,
                a.scratch_tables.deep_view().contains(t.name@),
                a.scratch_auto_added.deep_view().contains(t.name@),
            ),
    )
}

/// `s` cut at its first `.`.
fn split_name(s: &str) -> (r: (String, String))
    ensures
        r.0@ == split_at_dot(s@).0,
        r.1@ == split_at_dot(s@).1,
{
    let v = chars_of(s);
    let mut d: usize = 0;
    while d < v.len()
        invariant
            d <= v.len(),
            v@ == s@,
            first_dot(s@, 0) == first_dot(s@, d as int),
        decreases v.len() - d,
    {
        if v[d] == '.' {
            return (string_from_range(&v, 0, d), string_from_range(&v, d + 1, v.len()));
        }
        d = d + 1;
    }
    (String::new(), string_from_chars(&v))
}

impl App {
    /// The parameter rows of the editor: each placeholder key of the chosen
    /// template with the value typed for it.
    pub fn parameter_rows(&self) -> (r: Vec<(String, String)>)
        ensures
            r@.map_values(|e: (String, String)| (e.0@, e.1@)) == parameter_rows_of(*self),
    {
        let mut rows: Vec<(String, String)> = Vec::new();
        match &self.selected_template {
            Some(id) => {
                let all = self.all_templates();
                match find_template(&all, id) {
                    Some(k) => {
                        assert(template_views(all@)[k as int] == all[k as int]@);
                        let keys = all[k].param_keys();
                        let ghost kv = keys.deep_view();
                        let mut i: usize = 0;
                        while i < keys.len()
                            invariant
                                i <= keys.len(),
                                kv == keys.deep_view(),
                                rows@.map_values(|e: (String, String)| (e.0@, e.1@)) == kv.take(
                                    i as int,
                                ).map_values(|key: Seq<char>| parameter_row(self.parameters@, key)),
                            decreases keys.len() - i,
                        {
                            let v = match self.parameters.get(&keys[i]) {
                                Some(v) => v.clone(),
                                None => String::new(),
                            };
                            let ghost before = rows@;
                            let entry = (keys[i].clone(), v);
                            rows.push(entry);
                            assert(kv[i as int] == keys[i as int]@);
                            assert(entry.0@ == kv[i as int]);
                            let ghost want_v = match value_of(self.parameters@, kv[i as int]) {
                                Some(x) => x,
                                None => Seq::<char>::empty(),
                            };
                            assert(entry.1@ == want_v);
                            assert((entry.0@, entry.1@) == parameter_row(self.parameters@, kv[i as int]));
                            assert(rows@ == before.push(entry));
                            assert(kv.take(i + 1) =~= kv.take(i as int).push(kv[i as int]));
                            assert(rows@.map_values(|e: (String, String)| (e.0@, e.1@)) =~= before.map_values(
                                |e: (String, String)| (e.0@, e.1@),
                            ).push((entry.0@, entry.1@)));
                            assert(kv.take(i + 1).map_values(
                                |key: Seq<char>| parameter_row(self.parameters@, key),
                            ) =~= kv.take(i as int).map_values(
                                |key: Seq<char>| parameter_row(self.parameters@, key),
                            ).push(parameter_row(self.parameters@, kv[i as int])));
                            i = i + 1;
                        }
                        assert(kv.take(keys.len() as int) =~= kv);
                    },
                    None => {
                        assert(rows@.map_values(|e: (String, String)| (e.0@, e.1@)) =~= Seq::<
                            (Seq<char>, Seq<char>),
                        >::empty());
                    },
                }
            },
            None => {
                assert(rows@.map_values(|e: (String, String)| (e.0@, e.1@)) =~= Seq::<
                    (Seq<char>, Seq<char>),
                >::empty());
            },
        }
        rows
    }

    /// The row for column `name`, given whether the dragged and the hovered
    /// rows are at its position.
    fn column_row_for(&self, name: &String, drag_here: bool, hover_here: bool) -> (r: ColumnRow)
        ensures
            r.table@ == split_at_dot(name@).0,
            r.column@ == split_at_dot(name@).1,
            r.unknown == self.scratch_unknown_columns.deep_view().contains(name@),
            r.dragging == (!r.unknown && drag_here),
            r.target == (!r.unknown && self.scratch_drag_idx is Some && hover_here && !r.dragging),
    {
        let unknown = contains_string(&self.scratch_unknown_columns, name);
        let dragging = !unknown && drag_here;
        let target = !unknown && self.scratch_drag_idx.is_some() && hover_here && !dragging;
        let (table, column) = split_name(name.as_str());
        ColumnRow { table, column, unknown, dragging, target }
    }

    /// The column-order list: the chosen columns, then the unknown ones.
    pub fn column_rows(&self) -> (r: Vec<ColumnRow>)
        ensures
            r@.map_values(|x: ColumnRow| row_view(x)) == column_rows_of(*self),
    {
        let ghost names = self.scratch_columns.deep_view() + self.scratch_unknown_columns.deep_view();
        let ghost want = column_rows_of(*self);
        let n1 = self.scratch_columns.len();
        let mut rows: Vec<ColumnRow> = Vec::new();
        let mut i: usize = 0;
        while i < n1
            invariant
                i <= n1 == self.scratch_columns@.len(),
                names == self.scratch_columns.deep_view() + self.scratch_unknown_columns.deep_view(),
                want == column_rows_of(*self),
                rows@.map_values(|x: ColumnRow| row_view(x)) == want.take(i as int),
            decreases n1 - i,
        {
            let drag_here = match self.scratch_drag_idx {
                Some(d) => d == i,
                None => false,
            };
            let hover_here = match self.scratch_hover_idx {
                Some(h) => h == i,
                None => false,
            };
            let row = self.column_row_for(&self.scratch_columns[i], drag_here, hover_here);
            assert(names[i as int] == self.scratch_columns[i as int]@);
            assert(row_view(row) == want[i as int]);
            let ghost before = rows@;
            let ghost rv = row_view(row);
            rows.push(row);
            assert(rows@.map_values(|x: ColumnRow| row_view(x)) =~= before.map_values(
                |x: ColumnRow| row_view(x),
            ).push(rv));
            assert(want.take(i + 1) =~= want.take(i as int).push(want[i as int]));
            i = i + 1;
        }
        let mut j: usize = 0;
        while j < self.scratch_unknown_columns.len()
            invariant
                j <= self.scratch_unknown_columns@.len(),
                n1 == self.scratch_columns@.len(),
                names == self.scratch_columns.deep_view() + self.scratch_unknown_columns.deep_view(),
                want == column_rows_of(*self),
                rows@.map_values(|x: ColumnRow| row_view(x)) == want.take(n1 + j),
            decreases self.scratch_unknown_columns.len() - j,
        {
            let drag_here = match self.scratch_drag_idx {
                Some(d) => d >= n1 && d - n1 == j,
                None => false,
            };
            let hover_here = match self.scratch_hover_idx {
                Some(h) => h >= n1 && h - n1 == j,
                None => false,
            };
            let row = self.column_row_for(&self.scratch_unknown_columns[j], drag_here, hover_here);
            assert(names[n1 + j] == self.scratch_unknown_columns[j as int]@);
            assert(row_view(row) == want[n1 + j]);
            let ghost before = rows@;
            let ghost rv = row_view(row);
            rows.push(row);
            assert(rows@.map_values(|x: ColumnRow| row_view(x)) =~= before.map_values(
                |x: ColumnRow| row_view(x),
            ).push(rv));
            assert(want.take(n1 + j + 1) =~= want.take(n1 + j).push(want[n1 + j]));
            j = j + 1;
        }
        assert(want.take(n1 + j) =~= want);
        rows
    }

    /// The columns offered for the tables of the plan, in plan order.
    pub fn column_groups(&self) -> (r: Vec<ColumnGroup>)
        ensures
            r@.map_values(|g: ColumnGroup| group_view(g)) == groups_for(
                *self,
                path_view(self.scratch_joins@).map_values(|j: (Seq<char>, Seq<char>)| j.0),
            ),
    {
        let ghost names = path_view(self.scratch_joins@).map_values(|j: (Seq<char>, Seq<char>)| j.0);
        let mut groups: Vec<ColumnGroup> = Vec::new();
        let mut i: usize = 0;
        while i < self.scratch_joins.len()
            invariant
                i <= self.scratch_joins@.len(),
                names == path_view(self.scratch_joins@).map_values(|j: (Seq<char>, Seq<char>)| j.0),
                groups@.map_values(|g: ColumnGroup| group_view(g)) == groups_for(
                    *self,
                    names.take(i as int),
                ),
            decreases self.scratch_joins.len() - i,
        {
            let tname = &self.scratch_joins[i].0;
            assert(names[i as int] == tname@);
            assert(names.take(i + 1).drop_last() =~= names.take(i as int));
            assert(names.take(i + 1).last() == tname@);
            match self.schema.find_table_index(tname.as_str()) {
                Some(k) => {
                    let t = &self.schema.tables[k];
                    let mut cols: Vec<ColumnChoice> = Vec::new();
                    let mut m: usize = 0;
                    while m < t.columns.len()
                        invariant
                            m <= t.columns@.len(),
                            cols@.map_values(|c: ColumnChoice| choice_view(c)) == choices_of(
                                *self,
                                *t,
                            ).take(m as int),
                        decreases t.columns.len() - m,
                    {
                        let c = &t.columns[m];
                        let mut q = t.name.clone();
                        push_all(&mut q, ".");
                        push_all(&mut q, c.name.as_str());
                        proof {
                            reveal_strlit(".");
                        }
                        assert(q@ =~= qualified(t.name@, c.name@));
                        let checked = contains_string(&self.scratch_columns, &q);
                        let choice = ColumnChoice {
                            qualified: q,
                            name: c.name.clone(),
                            label: c.label.clone(),
                            checked,
                        };
                        let ghost before = cols@;
                        let ghost cv = choice_view(choice);
                        cols.push(choice);
                        assert(cols@.map_values(|c: ColumnChoice| choice_view(c)) =~= before.map_values(
                            |c: ColumnChoice| choice_view(c),
                        ).push(cv));
                        let ghost want = choices_of(*self, *t);
                        assert(want[m as int] == cv);
                        assert(want.take(m + 1) =~= want.take(m as int).push(want[m as int]));
                        m = m + 1;
                    }
                    assert(choices_of(*self, *t).take(t.columns.len() as int) =~= choices_of(*self, *t));
                    let auto_added = contains_string(&self.scratch_auto_added, tname);
                    let g = ColumnGroup {
                        table: t.name.clone(),
                        label: t.label.clone(),
                        auto_added,
                        columns: cols,
                    };
                    let ghost before = groups@;
                    let ghost gv = group_view(g);
                    groups.push(g);
                    assert(groups@.map_values(|g: ColumnGroup| group_view(g)) =~= before.map_values(
                        |g: ColumnGroup| group_view(g),
                    ).push(gv));
                },
                None => {},
            }
            i = i + 1;
        }
        assert(names.take(self.scratch_joins.len() as int) =~= names);
        groups
    }

    /// Every known table, ticked when chosen, flagged when the plan added it.
    pub fn table_choices(&self) -> (r: Vec<TableChoice>)
        ensures
            r@.map_values(|c: TableChoice| table_choice_view(c)) == table_choices_of(*self),
    {
        let mut out: Vec<TableChoice> = Vec::new();
        let mut i: usize = 0;
        while i < self.schema.tables.len()
            invariant
                i <= self.schema.tables@.len(),
                out@.map_values(|c: TableChoice| table_choice_view(c)) == table_choices_of(*self).take(
                    i as int,
                ),
            decreases self.schema.tables.len() - i,
        {
            let t = &self.schema.tables[i];
            let c = TableChoice {
                name: t.name.clone(),
                label: t.label.clone(),
                checked: contains_string(&self.scratch_tables, &t.name),
                auto_added: contains_string(&self.scratch_auto_added, &t.name),
            };
            let ghost before = out@;
            let ghost cv = table_choice_view(c);
            out.push(c);
            assert(out@.map_values(|c: TableChoice| table_choice_view(c)) =~= before.map_values(
                |c: TableChoice| table_choice_view(c),
            ).push(cv));
            let ghost want = table_choices_of(*self);
            assert(want[i as int] == cv);
            assert(want.take(i + 1) =~= want.take(i as int).push(want[i as int]));
            i = i + 1;
        }
        assert(table_choices_of(*self).take(i as int) =~= table_choices_of(*self));
        out
    }
}

// ── Laws ─────────────────────────────────────────────────────────────────────

/// Whatever the user does, a font size within the allowed range stays within it.
pub proof fn lemma_font_size_stays_in_range(old: App, msg: Message, new: App, eff: Effect)
    requires
        FONT_MIN <= old.font_size <= FONT_MAX,
        step(old, msg, new, eff),
    ensures
        FONT_MIN <= new.font_size <= FONT_MAX,
{
}

/// How each action changes the font size: one step up or down while that
/// stays within the allowed range, a typed size when it parses as a `u16`
/// within the range, and no change for any other action. A step up or down
/// saves the settings, with the new size, exactly when the size changed.
pub proof fn lemma_font_size_changes(old: App, msg: Message, new: App, eff: Effect)
    requires
        step(old, msg, new, eff),
    ensures
        msg is FontIncrease ==> new.font_size == (if old.font_size < FONT_MAX {
            old.font_size + 1
        } else {
            old.font_size as int
        }),
        msg is FontDecrease ==> new.font_size == (if old.font_size > FONT_MIN {
            old.font_size - 1
        } else {
            old.font_size as int
        }),
        (msg is FontIncrease || msg is FontDecrease) ==> ((eff is SaveSettings <==> new.font_size
            != old.font_size) && (eff is SaveSettings ==> eff == Effect::SaveSettings(
            settings_of(new),
        ))),
        msg matches Message::FontSizeInput(raw) ==> new.font_size == match font_size_taken(raw@) {
            Some(n) => n,
            None => old.font_size as int,
        },
        !(msg is FontIncrease || msg is FontDecrease || msg is FontSizeInput) ==> new.font_size
            == old.font_size,
{
}

/// The builder's columns and the from-scratch tables and columns hold no
/// name twice.
pub open spec fn lists_unrepeated(a: App) -> bool {
    &&& a.builder.selected_columns.deep_view().no_duplicates()
    &&& a.scratch_columns.deep_view().no_duplicates()
    &&& a.scratch_tables.deep_view().no_duplicates()
}

/// Whatever the user does, the builder's columns and the from-scratch tables
/// and columns stay free of repeats; a ticked name is then in its list, and
/// an unticked one is not.
pub proof fn lemma_lists_stay_unrepeated(old: App, msg: Message, new: App, eff: Effect)
    requires
        lists_unrepeated(old),
        accepts(old, msg),
        step(old, msg, new, eff),
    ensures
        lists_unrepeated(new),
        msg matches Message::BuilderColumnToggled(c, on) ==> new.builder.selected_columns.deep_view().contains(c@) == on,
        msg matches Message::ScratchColumnToggled(c, on) ==> new.scratch_columns.deep_view().contains(c@) == on,
        msg matches Message::ScratchTableToggled(t, on) ==> new.scratch_tables.deep_view().contains(t@) == on,
{
    match msg {
        Message::BuilderColumnToggled(c, on) => {
            lemma_toggled_unrepeated(old.builder.selected_columns.deep_view(), c@, on);
        },
        Message::ScratchColumnToggled(c, on) => {
            lemma_toggled_unrepeated(old.scratch_columns.deep_view(), c@, on);
        },
        Message::ScratchTableToggled(t, on) => {
            lemma_toggled_unrepeated(old.scratch_tables.deep_view(), t@, on);
            lemma_without_prefixed_unrepeated(old.scratch_columns.deep_view(), t@ + "."@);
        },
        Message::ScratchDragDrop(j) => {
            if drop_moves(old, j) {
                lemma_move_unrepeated(
                    old.scratch_columns.deep_view(),
                    old.scratch_drag_idx->Some_0 as int,
                    j as int,
                );
            }
        },
        Message::ScratchSqlEdited(t, pasted) => {
            if pasted {
                lemma_sort_tables_unrepeated(old.schema, pasted_table_names(t@));
                lemma_sort_fields_unrepeated(
                    old.schema,
                    sort_tables(old.schema, pasted_table_names(t@)).0,
                    pasted_fields(t@),
                );
            }
        },
        Message::BuilderTableSelected(_) | Message::OpenBuilder | Message::BuilderBack
        | Message::BuilderSave => {
            assert(new.builder.selected_columns.deep_view().len() == 0 ==> new.builder.selected_columns.deep_view() =~= Seq::<Seq<char>>::empty());
        },
        Message::ResetScratch => {
            assert(new.scratch_columns.deep_view() =~= Seq::<Seq<char>>::empty());
            assert(new.scratch_tables.deep_view() =~= Seq::<Seq<char>>::empty());
        },
        _ => {},
    }
}

/// Growing the font one step and shrinking it one step gives back the size
/// it had, and changes nothing else but the size as typed, which then shows
/// that size.
pub proof fn lemma_font_increase_then_decrease(
    a: App,
    b: App,
    c: App,
    e1: Effect,
    e2: Effect,
)
    requires
        FONT_MIN <= a.font_size < FONT_MAX,
        step(a, Message::FontIncrease, b, e1),
        step(b, Message::FontDecrease, c, e2),
    ensures
        c == (App { font_size_raw: c.font_size_raw, ..a }),
        c.font_size_raw@ == decimal(a.font_size as nat),
        e2 == Effect::SaveSettings(settings_of(a)),
{
}

/// Dropping a dragged row only reorders the columns: none is lost or added.
pub proof fn lemma_drop_keeps_columns(old: App, j: usize, new: App, eff: Effect)
    requires
        accepts(old, Message::ScratchDragDrop(j)),
        step(old, Message::ScratchDragDrop(j), new, eff),
    ensures
        new.scratch_columns.deep_view().to_multiset() == old.scratch_columns.deep_view().to_multiset(),
        new.scratch_drag_idx is None,
        new.scratch_hover_idx is None,
{
    if drop_moves(old, j) {
        let i = old.scratch_drag_idx->Some_0;
        let cols = old.scratch_columns.deep_view();
        vstd::seq_lib::to_multiset_remove(cols, i as int);
        vstd::seq_lib::to_multiset_insert(cols.remove(i as int), j as int, cols[i as int]);
        assert(cols.to_multiset().remove(cols[i as int]).insert(cols[i as int]) =~= cols.to_multiset()) by {
            broadcast use vstd::multiset::group_multiset_axioms;
            broadcast use vstd::seq_lib::to_multiset_contains;
            assert(cols.contains(cols[i as int]));
        }
    }
}

/// Every action but an edit of the from-scratch SQL keeps that SQL and the
/// join plan in step with the chosen tables and columns.
pub proof fn lemma_scratch_stays_planned(old: App, msg: Message, new: App, eff: Effect)
    requires
        scratch_planned(old),
        step(old, msg, new, eff),
        !(msg is ScratchSqlEdited),
    ensures
        scratch_planned(new),
{
    if msg is ResetScratch {
        assert(new.scratch_tables.deep_view() =~= Seq::<Seq<char>>::empty());
        assert(new.scratch_auto_added.deep_view() =~= Seq::<Seq<char>>::empty());
        assert(path_view(new.scratch_joins@) =~= Seq::<(Seq<char>, Seq<char>)>::empty());
        assert(new.scratch_sql@ =~= Seq::<char>::empty());
        assert(scratch_sql(path_view(new.scratch_joins@), new.scratch_columns.deep_view()) =~= Seq::<
            char,
        >::empty());
    } else {
        match msg {
            Message::ScratchDragDrop(_) => {},
            Message::ScratchTableToggled(..) => {},
            Message::ScratchColumnToggled(..) => {},
            _ => {
                assert(new.scratch_tables == old.scratch_tables);
                assert(new.scratch_columns == old.scratch_columns);
                assert(new.scratch_joins == old.scratch_joins);
                assert(new.scratch_auto_added == old.scratch_auto_added);
                assert(new.scratch_sql == old.scratch_sql);
            },
        }
    }
}

/// The flag of a group added at the end is found there.
proof fn lemma_flag_index_push(flags: Seq<(Seq<char>, bool)>, name: Seq<char>, b: bool, k: int)
    requires
        0 <= k <= flags.len(),
        flag_index(flags, name, k) is None,
    ensures
        flag_index(flags.push((name, b)), name, k) == Some(flags.len() as int),
    decreases flags.len() - k,
{
    if k < flags.len() {
        lemma_flag_index_push(flags, name, b, k + 1);
    }
}

/// The flag found for a group is at or after the start, and is that group's.
proof fn lemma_flag_index_found(flags: Seq<(Seq<char>, bool)>, name: Seq<char>, k: int)
    requires
        0 <= k,
        flag_index(flags, name, k) is Some,
    ensures
        k <= flag_index(flags, name, k)->Some_0 < flags.len(),
        flags[flag_index(flags, name, k)->Some_0].0 == name,
    decreases flags.len() - k,
{
    if k < flags.len() && flags[k].0 != name {
        lemma_flag_index_found(flags, name, k + 1);
    }
}

/// Changing the value of the flag found first for a group keeps it first.
proof fn lemma_flag_index_update(flags: Seq<(Seq<char>, bool)>, name: Seq<char>, b: bool, k: int)
    requires
        0 <= k <= flags.len(),
        flag_index(flags, name, k) is Some,
    ensures
        flag_index(flags.update(flag_index(flags, name, k)->Some_0, (name, b)), name, k)
            == flag_index(flags, name, k),
    decreases flags.len() - k,
{
    let i = flag_index(flags, name, k)->Some_0;
    lemma_flag_index_found(flags, name, k);
    let f = flags.update(i, (name, b));
    if k < flags.len() && flags[k].0 != name {
        assert(flag_index(flags, name, k + 1) == Some(i));
        lemma_flag_index_update(flags, name, b, k + 1);
        assert(f[k] == flags[k]);
    } else {
        assert(i == k);
        assert(f[k] == (name, b));
    }
}

/// Collapsing or expanding a group twice shows it as it was.
pub proof fn lemma_toggle_group_twice(flags: Seq<(Seq<char>, bool)>, name: Seq<char>)
    ensures
        group_expanded_in(flipped(flipped(flags, name), name), name) == group_expanded_in(
            flags,
            name,
        ),
{
    match flag_index(flags, name, 0) {
        Some(i) => {
            lemma_flag_index_found(flags, name, 0);
            lemma_flag_index_update(flags, name, !flags[i].1, 0);
            let f1 = flags.update(i, (name, !flags[i].1));
            assert(flipped(flags, name) == f1);
            lemma_flag_index_update(f1, name, flags[i].1, 0);
            assert(f1.update(i, (name, !f1[i].1))[i].1 == flags[i].1);
        },
        None => {
            lemma_flag_index_push(flags, name, false, 0);
            let f1 = flags.push((name, false));
            assert(flipped(flags, name) == f1);
            lemma_flag_index_update(f1, name, true, 0);
            assert(f1.update(flags.len() as int, (name, !f1[flags.len() as int].1))[flags.len() as int].1);
        },
    }
}

} // verus!
