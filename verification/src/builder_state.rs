//! The state of the "new template" builder and the SQL it produces.
use vstd::prelude::*;
use crate::text::{
    matches_at, all_ascii, ascii_lower, char_is_alphanumeric, is_ascii_alphanumeric, chars_of, decimal, decimal_string, is_blank, join, join_strings,
    push_all, str_to_lowercase, string_push, trim, unicode_alphanumeric, unicode_lowercase,
};

verus! {

// ── Operator ─────────────────────────────────────────────────────────────────

/// A comparison in a WHERE condition.
#[derive(Debug, Clone, Copy, PartialEq, Eq, Structural)]
pub enum WhereOperator {
    Eq,
    NotEq,
    Like,
    Gt,
    Lt,
    Gte,
    Lte,
}

impl Default for WhereOperator {
    fn default() -> (r: Self)
        ensures
            r == WhereOperator::Eq,
    {
        WhereOperator::Eq
    }
}

/// The SQL spelling of an operator.
pub open spec fn operator_sql(op: WhereOperator) -> Seq<char> {
    match op {
        WhereOperator::Eq => "="@,
        WhereOperator::NotEq => "<>"@,
        WhereOperator::Like => "LIKE"@,
        WhereOperator::Gt => ">"@,
        WhereOperator::Lt => "<"@,
        WhereOperator::Gte => ">="@,
        WhereOperator::Lte => "<="@,
    }
}

impl WhereOperator {
    /// Every operator, in the order the builder offers them.
    pub fn all() -> (r: Vec<WhereOperator>)
        ensures
            r@ == seq![
                WhereOperator::Eq,
                WhereOperator::NotEq,
                WhereOperator::Like,
                WhereOperator::Gt,
                WhereOperator::Lt,
                WhereOperator::Gte,
                WhereOperator::Lte,
            ],
    {
        let r = vec![
            WhereOperator::Eq,
            WhereOperator::NotEq,
            WhereOperator::Like,
            WhereOperator::Gt,
            WhereOperator::Lt,
            WhereOperator::Gte,
            WhereOperator::Lte,
        ];
        assert(r@ =~= seq![
            WhereOperator::Eq,
            WhereOperator::NotEq,
            WhereOperator::Like,
            WhereOperator::Gt,
            WhereOperator::Lt,
            WhereOperator::Gte,
            WhereOperator::Lte,
        ]);
        r
    }

    /// The SQL spelling of the operator.
    pub fn to_sql(&self) -> (r: &'static str)
        ensures
            r@ == operator_sql(*self),
    {
        match self {
            WhereOperator::Eq => "=",
            WhereOperator::NotEq => "<>",
            WhereOperator::Like => "LIKE",
            WhereOperator::Gt => ">",
            WhereOperator::Lt => "<",
            WhereOperator::Gte => ">=",
            WhereOperator::Lte => "<=",
        }
    }
}

// ── Condition ────────────────────────────────────────────────────────────────

/// One WHERE condition of the builder: `field operator '{param_name}'`.
#[derive(Debug, Clone)]
pub struct WhereCondition {
    pub field: Option<String>,
    pub operator: WhereOperator,
    /// Name of the query parameter that fills this slot, e.g. "employee_id",
    /// rendered as `'{employee_id}'` in the SQL template.
    pub param_name: String,
}

impl Default for WhereCondition {
    fn default() -> (r: Self)
        ensures
            r.field is None,
            r.operator == WhereOperator::Eq,
            r.param_name@.len() == 0,
    {
        WhereCondition { field: None, operator: WhereOperator::Eq, param_name: String::new() }
    }
}

/// The condition names both a field and a parameter.
pub open spec fn condition_complete(c: WhereCondition) -> bool {
    c.field is Some && c.param_name@.len() > 0
}

/// The condition names a field or a parameter, but not both.
pub open spec fn condition_half_set(c: WhereCondition) -> bool {
    (c.field is Some) != (c.param_name@.len() > 0)
}

/// The SQL text of a complete condition: `field op '{param}' `.
pub open spec fn condition_sql(c: WhereCondition) -> Seq<char> {
    c.field->Some_0@ + " "@ + operator_sql(c.operator) + " '{"@ + c.param_name@ + "}' "@
}

/// The SQL text of every complete condition, in order.
pub open spec fn where_clauses(conds: Seq<WhereCondition>) -> Seq<Seq<char>>
    decreases conds.len(),
{
    if conds.len() == 0 {
        Seq::empty()
    } else if condition_complete(conds.last()) {
        where_clauses(conds.drop_last()).push(condition_sql(conds.last()))
    } else {
        where_clauses(conds.drop_last())
    }
}

// ── Builder state ────────────────────────────────────────────────────────────

/// What the user has chosen so far in the template builder.
#[derive(Debug, Clone)]
pub struct BuilderState {
    pub template_name: String,
    pub selected_table: Option<String>,
    /// Columns in the SELECT list, ordered by selection.
    pub selected_columns: Vec<String>,
    pub conditions: Vec<WhereCondition>,
    pub save_error: Option<String>,
}

impl Default for BuilderState {
    fn default() -> (r: Self)
        ensures
            r.template_name@.len() == 0,
            r.selected_table is None,
            r.selected_columns@.len() == 0,
            r.conditions@.len() == 0,
            r.save_error is None,
    {
        BuilderState {
            template_name: String::new(),
            selected_table: None,
            selected_columns: Vec::new(),
            conditions: Vec::new(),
            save_error: None,
        }
    }
}

/// The SQL template of a builder state, or `None` while no table or no
/// column is chosen.
pub open spec fn builder_sql(b: BuilderState) -> Option<Seq<char>> {
    match b.selected_table {
        None => None,
        Some(table) => if b.selected_columns@.len() == 0 {
            None
        } else {
            let head = "SELECT "@ + join(b.selected_columns.deep_view(), ", "@) + "\nFROM "@
                + table@;
            let clauses = where_clauses(b.conditions@);
            if clauses.len() == 0 {
                Some(head)
            } else {
                Some(head + "\nWHERE "@ + join(clauses, "\n  AND "@))
            }
        },
    }
}

/// Every character of `s` that is not alphanumeric replaced by `_`.
pub open spec fn underscored(s: Seq<char>) -> Seq<char> {
    s.map_values(|c: char| if unicode_alphanumeric(c) { c } else { '_' })
}

/// The stable identifier of a template name: lowercased, with every
/// character that is not alphanumeric replaced by `_`.
pub open spec fn template_id_of(name: Seq<char>) -> Seq<char> {
    underscored(unicode_lowercase(name))
}

/// Every character of `s` that is not an ASCII letter or digit replaced by `_`.
pub open spec fn ascii_underscored(s: Seq<char>) -> Seq<char> {
    s.map_values(|c: char| if is_ascii_alphanumeric(c) { c } else { '_' })
}

/// The template id of an ASCII name: lowercased, with every character that
/// is not an ASCII letter or digit replaced by `_`.
pub open spec fn ascii_template_id(name: Seq<char>) -> Seq<char> {
    ascii_underscored(name.map_values(|c: char| ascii_lower(c)))
}

/// The first position at or after `k` of a half-set condition.
pub open spec fn first_half_set(conds: Seq<WhereCondition>, k: int) -> Option<int>
    decreases conds.len() - k,
{
    if k < 0 || k >= conds.len() {
        None
    } else if condition_half_set(conds[k]) {
        Some(k)
    } else {
        first_half_set(conds, k + 1)
    }
}

/// The message for the half-set condition at position `i` (counted from 1).
pub open spec fn incomplete_condition_message(i: int) -> Seq<char> {
    "Condition "@ + decimal((i + 1) as nat)
        + " is incomplete — set both the field and a parameter name."@
}

/// Why a builder state cannot be saved yet, or `None` when it can.
pub open spec fn validation_error(b: BuilderState) -> Option<Seq<char>> {
    if trim(b.template_name@).len() == 0 {
        Some("Template name is required."@)
    } else if b.selected_table is None {
        Some("Select a table first."@)
    } else if b.selected_columns@.len() == 0 {
        Some("Select at least one field for SELECT."@)
    } else {
        match first_half_set(b.conditions@, 0) {
            Some(i) => Some(incomplete_condition_message(i)),
            None => None,
        }
    }
}

/// `underscored(s)`: replaces every character that is not alphanumeric by `_`.
pub fn underscore_non_alphanumeric(s: &str) -> (r: String)
    ensures
        r@ == underscored(s@),
        all_ascii(s@) ==> r@ == ascii_underscored(s@),
{
    let v = chars_of(s);
    let mut r = String::new();
    let mut i: usize = 0;
    while i < v.len()
        invariant
            i <= v.len(),
            v@ == s@,
            r@ == underscored(s@.take(i as int)),
            all_ascii(s@) ==> r@ == ascii_underscored(s@.take(i as int)),
        decreases v.len() - i,
    {
        let c = v[i];
        assert(s@[i as int] == c);
        let d = if char_is_alphanumeric(c) { c } else { '_' };
        string_push(&mut r, d);
        i = i + 1;
        assert(r@ =~= underscored(s@.take(i as int)));
        proof {
            if all_ascii(s@) {
                assert(c <= '\x7f');
                assert(r@ =~= ascii_underscored(s@.take(i as int)));
            }
        }
    }
    assert(s@.take(v.len() as int) =~= s@);
    r
}

impl BuilderState {
    /// The SQL template, or `None` if not enough is chosen yet.
    pub fn build_sql(&self) -> (r: Option<String>)
        ensures
            match r {
                Some(s) => builder_sql(*self) == Some(s@),
                None => builder_sql(*self) is None,
            },
    {
        let table = match &self.selected_table {
            Some(t) => t,
            None => return None,
        };
        if self.selected_columns.len() == 0 {
            return None;
        }
        let cols = join_strings(&self.selected_columns, ", ");
        let mut sql = String::new();
        push_all(&mut sql, "SELECT ");
        push_all(&mut sql, cols.as_str());
        push_all(&mut sql, "\nFROM ");
        push_all(&mut sql, table.as_str());
        let ghost head = sql@;
        let mut clauses: Vec<String> = Vec::new();
        let mut i: usize = 0;
        while i < self.conditions.len()
            invariant
                i <= self.conditions.len(),
                clauses.deep_view() == where_clauses(self.conditions@.take(i as int)),
            decreases self.conditions.len() - i,
        {
            let c = &self.conditions[i];
            let ghost pre = self.conditions@.take(i as int);
            assert(self.conditions@.take(i + 1).drop_last() =~= pre);
            assert(self.conditions@.take(i + 1).last() == *c);
            match &c.field {
                Some(f) => {
                    if c.param_name.as_str().is_empty() {
                    } else {
                        let mut s = String::new();
                        push_all(&mut s, f.as_str());
                        push_all(&mut s, " ");
                        push_all(&mut s, c.operator.to_sql());
                        push_all(&mut s, " '{");
                        push_all(&mut s, c.param_name.as_str());
                        push_all(&mut s, "}' ");
                        clauses.push(s);
                        assert(clauses.deep_view() =~= where_clauses(pre).push(condition_sql(*c)));
                    }
                },
                None => {},
            }
            i = i + 1;
        }
        assert(self.conditions@.take(self.conditions.len() as int) =~= self.conditions@);
        if clauses.len() > 0 {
            push_all(&mut sql, "\nWHERE ");
            let body = join_strings(&clauses, "\n  AND ");
            push_all(&mut sql, body.as_str());
        }
        Some(sql)
    }

    /// The stable identifier of the template name.
    pub fn build_template_id(&self) -> (r: String)
        ensures
            r@ == template_id_of(self.template_name@),
            all_ascii(self.template_name@) ==> r@ == ascii_template_id(self.template_name@),
    {
        let lower = str_to_lowercase(self.template_name.as_str());
        proof {
            if all_ascii(self.template_name@) {
                assert forall|i: int| 0 <= i < lower@.len() implies (#[trigger] lower@[i]) <= '\x7f' by {
                    assert(lower@[i] == ascii_lower(self.template_name@[i]));
                    assert(self.template_name@[i] <= '\x7f');
                }
            }
        }
        let r = underscore_non_alphanumeric(lower.as_str());
        proof {
            if all_ascii(self.template_name@) {
                assert(r@ =~= ascii_template_id(self.template_name@));
            }
        }
        r
    }

    /// `Ok(())` if the state is complete enough to save, else the reason.
    pub fn validate(&self) -> (r: Result<(), String>)
        ensures
            match r {
                Ok(()) => validation_error(*self) is None,
                Err(e) => validation_error(*self) == Some(e@),
            },
    {
        if is_blank(self.template_name.as_str()) {
            return Err(String::from_str("Template name is required."));
        }
        if self.selected_table.is_none() {
            return Err(String::from_str("Select a table first."));
        }
        if self.selected_columns.len() == 0 {
            return Err(String::from_str("Select at least one field for SELECT."));
        }
        let mut i: usize = 0;
        while i < self.conditions.len()
            invariant
                i <= self.conditions.len(),
                first_half_set(self.conditions@, 0) == first_half_set(self.conditions@, i as int),
                trim(self.template_name@).len() != 0,
                self.selected_table is Some,
                self.selected_columns@.len() != 0,
            decreases self.conditions.len() - i,
        {
            let c = &self.conditions[i];
            let has_field = c.field.is_some();
            let has_param = !c.param_name.as_str().is_empty();
            if has_field != has_param {
                let mut msg = String::new();
                push_all(&mut msg, "Condition ");
                let n = decimal_string(i + 1);
                push_all(&mut msg, n.as_str());
                push_all(&mut msg, " is incomplete — set both the field and a parameter name.");
                assert(condition_half_set(self.conditions@[i as int]));
                assert(first_half_set(self.conditions@, i as int) == Some(i as int));
                assert(msg@ =~= incomplete_condition_message(i as int));
                return Err(msg);
            }
            i = i + 1;
        }
        Ok(())
    }
}

// ── Laws ─────────────────────────────────────────────────────────────────────

/// The id of an ASCII template name holds only ASCII lower-case letters,
/// digits and `_`, one for each character of the name, and is its own id.
pub proof fn lemma_ascii_template_id(name: Seq<char>)
    requires
        all_ascii(name),
    ensures
        ascii_template_id(name).len() == name.len(),
        all_ascii(ascii_template_id(name)),
        forall|i: int|
            0 <= i < name.len() ==> {
                let c = #[trigger] ascii_template_id(name)[i];
                c == '_' || ('a' <= c && c <= 'z') || ('0' <= c && c <= '9')
            },
        ascii_template_id(ascii_template_id(name)) == ascii_template_id(name),
{
    let r = ascii_template_id(name);
    assert forall|i: int| 0 <= i < name.len() implies {
        let c = #[trigger] r[i];
        c == '_' || ('a' <= c && c <= 'z') || ('0' <= c && c <= '9')
    } by {
        let x = name[i];
        let l = ascii_lower(x);
        if 'A' <= x && x <= 'Z' {
            let n = x as u32;
            assert(65 <= n <= 90);
            assert(((n + 32) as u8) as u32 == n + 32);
            assert(l as u32 == n + 32);
        }
    }
    assert forall|i: int| 0 <= i < r.len() implies (#[trigger] r[i]) <= '\x7f' by {
        assert(r[i] == '_' || ('a' <= r[i] && r[i] <= 'z') || ('0' <= r[i] && r[i] <= '9'));
    }
    assert(ascii_template_id(r) =~= r);
}

/// A builder state that passes validation has SQL to save.
pub proof fn lemma_valid_builder_has_sql(b: BuilderState)
    requires
        validation_error(b) is None,
    ensures
        builder_sql(b) is Some,
{
}

/// A template id holds only alphanumeric characters and `_`, one for each
/// character of the lowercased name.
pub proof fn lemma_template_id_chars(name: Seq<char>)
    ensures
        template_id_of(name).len() == unicode_lowercase(name).len(),
        forall|i: int|
            0 <= i < template_id_of(name).len() ==> {
                let c = #[trigger] template_id_of(name)[i];
                c == '_' || unicode_alphanumeric(c)
            },
{
}

/// A match stays a match with text put after it.
proof fn lemma_match_before(x: Seq<char>, y: Seq<char>, b: Seq<char>, i: int)
    requires
        matches_at(x, b, i),
    ensures
        matches_at(x + y, b, i),
{
    assert((x + y).subrange(i, i + b.len()) =~= x.subrange(i, i + b.len()));
}

/// A match stays a match with text put before it.
proof fn lemma_match_behind(x: Seq<char>, y: Seq<char>, b: Seq<char>, i: int)
    requires
        matches_at(y, b, i),
    ensures
        matches_at(x + y, b, x.len() + i),
{
    assert((x + y).subrange(x.len() + i, x.len() + i + b.len()) =~= y.subrange(i, i + b.len()));
}

/// Each piece occurs in the pieces joined.
proof fn lemma_join_has_part(parts: Seq<Seq<char>>, sep: Seq<char>, m: int)
    requires
        0 <= m < parts.len(),
    ensures
        exists|i: int| #[trigger] matches_at(join(parts, sep), parts[m], i),
    decreases parts.len(),
{
    if parts.len() == 1 {
        assert(join(parts, sep).subrange(0, parts[0].len() as int) =~= parts[0]);
        assert(matches_at(join(parts, sep), parts[m], 0));
    } else {
        let init = parts.drop_last();
        let front = join(init, sep) + sep;
        assert(join(parts, sep) == front + parts.last());
        if m == parts.len() - 1 {
            assert(parts.last().subrange(0, parts.last().len() as int) =~= parts.last());
            lemma_match_behind(front, parts.last(), parts[m], 0);
        } else {
            assert(init[m] == parts[m]);
            lemma_join_has_part(init, sep, m);
            let i = choose|i: int| #[trigger] matches_at(join(init, sep), init[m], i);
            lemma_match_before(join(init, sep), sep, parts[m], i);
            lemma_match_before(front, parts.last(), parts[m], i);
        }
    }
}

/// Each complete condition has its text among the WHERE clauses.
proof fn lemma_where_clauses_have(conds: Seq<WhereCondition>, k: int)
    requires
        0 <= k < conds.len(),
        condition_complete(conds[k]),
    ensures
        where_clauses(conds).contains(condition_sql(conds[k])),
    decreases conds.len(),
{
    let init = conds.drop_last();
    if k == conds.len() - 1 {
        let w = where_clauses(init);
        assert(where_clauses(conds) == w.push(condition_sql(conds[k])));
        assert(w.push(condition_sql(conds[k]))[w.len() as int] == condition_sql(conds[k]));
    } else {
        assert(init[k] == conds[k]);
        lemma_where_clauses_have(init, k);
        let w = where_clauses(init);
        let j = choose|j: int| 0 <= j < w.len() && w[j] == condition_sql(conds[k]);
        if condition_complete(conds.last()) {
            assert(w.push(condition_sql(conds.last()))[j] == w[j]);
        }
    }
}

/// The SQL comparison each operator of the builder stands for: equal, not
/// equal, LIKE, greater, less, greater or equal, less or equal.
pub open spec fn comparison_in_sql(op: WhereOperator) -> Seq<char> {
    match op {
        WhereOperator::Eq => "="@,
        WhereOperator::NotEq => "<>"@,
        WhereOperator::Like => "LIKE"@,
        WhereOperator::Gt => ">"@,
        WhereOperator::Lt => "<"@,
        WhereOperator::Gte => ">="@,
        WhereOperator::Lte => "<="@,
    }
}

/// The SQL of a builder writes each complete condition as its field, a
/// space, the operator's SQL spelling (`=`, `<>`, `LIKE`, `>`, `<`, `>=`,
/// `<=`), and the parameter's placeholder in quotes.
pub proof fn lemma_builder_writes_conditions(b: BuilderState, k: int)
    requires
        builder_sql(b) is Some,
        0 <= k < b.conditions@.len(),
        b.conditions@[k].field is Some,
        b.conditions@[k].param_name@.len() > 0,
    ensures
        exists|i: int|
            #[trigger] matches_at(
                builder_sql(b)->Some_0,
                b.conditions@[k].field->Some_0@ + " "@ + comparison_in_sql(b.conditions@[k].operator)
                    + " '{"@ + b.conditions@[k].param_name@ + "}' "@,
                i,
            ),
{
    let conds = b.conditions@;
    let c = conds[k];
    lemma_where_clauses_have(conds, k);
    let clauses = where_clauses(conds);
    let m = choose|m: int| 0 <= m < clauses.len() && clauses[m] == condition_sql(c);
    let table = b.selected_table->Some_0;
    let head = "SELECT "@ + join(b.selected_columns.deep_view(), ", "@) + "\nFROM "@ + table@;
    let sep = "\n  AND "@;
    lemma_join_has_part(clauses, sep, m);
    let i = choose|i: int| #[trigger] matches_at(join(clauses, sep), clauses[m], i);
    lemma_match_behind(head + "\nWHERE "@, join(clauses, sep), clauses[m], i);
    assert(builder_sql(b)->Some_0 == head + "\nWHERE "@ + join(clauses, sep));
    let pre = head + "\nWHERE "@;
    assert(matches_at(builder_sql(b)->Some_0, condition_sql(c), pre.len() + i));
    assert(comparison_in_sql(c.operator) == operator_sql(c.operator));
    assert(condition_sql(c) == c.field->Some_0@ + " "@ + comparison_in_sql(c.operator) + " '{"@
        + c.param_name@ + "}' "@);
}

} // verus!
