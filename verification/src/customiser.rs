//! Taking a SELECT statement apart, and the query customiser that edits one.
use vstd::prelude::*;
use crate::schema::{column_names, table_index, Schema};
use crate::templates::QueryTemplate;
use crate::text::{
    ascii_upper, ascii_uppercase, char_at_byte, char_index_at_byte, chars_of, copy_strings,
    eq_ignore_ascii_case, eq_ignore_case_exec, find_exec, find_from, join, join_strings,
    normalize_space, normalize_whitespace, push_all, split_exec, split_on, words,
    string_from_range, trim, trim_bounds, trim_string,
};

verus! {

// ── Parsing a SELECT statement ───────────────────────────────────────────────

/// The parts of a `SELECT … FROM … [WHERE …] [ORDER BY …]` statement.
pub struct SelectParts {
    pub select_star: bool,
    pub fields: Vec<String>,
    pub from_table: String,
    pub where_clause: String,
    pub order_clause: String,
}

/// The text of the parts of a SELECT statement.
pub struct SelectPartsView {
    pub select_star: bool,
    pub fields: Seq<Seq<char>>,
    pub from_table: Seq<char>,
    pub where_clause: Seq<char>,
    pub order_clause: Seq<char>,
}

impl View for SelectParts {
    type V = SelectPartsView;

    open spec fn view(&self) -> SelectPartsView {
        SelectPartsView {
            select_star: self.select_star,
            fields: self.fields.deep_view(),
            from_table: self.from_table@,
            where_clause: self.where_clause@,
            order_clause: self.order_clause@,
        }
    }
}

/// `char::to_ascii_uppercase` on every character.
pub open spec fn upper(s: Seq<char>) -> Seq<char> {
    s.map_values(|c: char| ascii_upper(c))
}

/// The earliest position in `h` at which one of `kws` occurs.
pub open spec fn first_keyword(h: Seq<char>, kws: Seq<Seq<char>>) -> Option<int>
    decreases kws.len(),
{
    if kws.len() == 0 {
        None
    } else {
        let a = first_keyword(h, kws.drop_last());
        match find_from(h, kws.last(), 0) {
            None => a,
            Some(i) => match a {
                Some(j) => if j <= i {
                    Some(j)
                } else {
                    Some(i)
                },
                None => Some(i),
            },
        }
    }
}

/// The keywords that end the table name after FROM.
pub open spec fn table_end_keywords() -> Seq<Seq<char>> {
    seq![" WHERE "@, " ORDER "@, " INNER "@, " LEFT "@, " RIGHT "@, " JOIN "@]
}

/// The text between `SELECT ` and ` FROM ` of a normalised statement, trimmed;
/// `*` when the 8th byte does not start a character or lies past ` FROM `.
pub open spec fn select_body(norm: Seq<char>, from_at: int) -> Seq<char> {
    match char_at_byte(norm, 7, 0) {
        Some(k) => if k <= from_at {
            trim(norm.subrange(k, from_at))
        } else {
            "*"@
        },
        None => "*"@,
    }
}

/// The trimmed pieces that are not empty, in order.
pub open spec fn trimmed_nonempty(pieces: Seq<Seq<char>>) -> Seq<Seq<char>>
    decreases pieces.len(),
{
    if pieces.len() == 0 {
        Seq::empty()
    } else if trim(pieces.last()).len() > 0 {
        trimmed_nonempty(pieces.drop_last()).push(trim(pieces.last()))
    } else {
        trimmed_nonempty(pieces.drop_last())
    }
}

/// The position of ` FROM ` in the uppercased statement, or its length.
pub open spec fn from_position(norm: Seq<char>) -> int {
    match find_from(upper(norm), " FROM "@, 0) {
        Some(i) => i,
        None => norm.len() as int,
    }
}

/// The part of the normalised statement after ` FROM `.
pub open spec fn after_from(norm: Seq<char>) -> Seq<char> {
    let from_at = from_position(norm);
    if from_at + 6 <= norm.len() {
        norm.skip(from_at + 6)
    } else {
        Seq::empty()
    }
}

/// The WHERE clause of the text after FROM: from after ` WHERE ` up to
/// ` ORDER `, trimmed; empty without ` WHERE `.
pub open spec fn where_part(rest: Seq<char>) -> Seq<char> {
    match find_from(upper(rest), " WHERE "@, 0) {
        Some(i) => {
            let s = rest.skip(i + 7);
            let e = match find_from(upper(s), " ORDER "@, 0) {
                Some(e) => e,
                None => s.len() as int,
            };
            trim(s.take(e))
        },
        None => Seq::empty(),
    }
}

/// The ORDER BY clause of the text after FROM: all after ` ORDER BY `,
/// trimmed; empty without it.
pub open spec fn order_part(rest: Seq<char>) -> Seq<char> {
    match find_from(upper(rest), " ORDER BY "@, 0) {
        Some(i) => trim(rest.skip(i + 10)),
        None => Seq::empty(),
    }
}

/// The table name: the text after FROM up to the first clause keyword, trimmed.
pub open spec fn table_part(rest: Seq<char>) -> Seq<char> {
    let end = match first_keyword(upper(rest), table_end_keywords()) {
        Some(i) => i,
        None => rest.len() as int,
    };
    trim(rest.take(end))
}

/// What `parse_select_sql` makes of `sql`. Keywords are found in the
/// statement with its whitespace runs collapsed to single spaces and its
/// ASCII letters uppercased; the parts are taken from the collapsed text.
pub open spec fn parse_select(sql: Seq<char>) -> SelectPartsView {
    let norm = normalize_space(sql);
    let body = select_body(norm, from_position(norm));
    let star = body == "*"@;
    let rest = after_from(norm);
    SelectPartsView {
        select_star: star,
        fields: if star {
            Seq::empty()
        } else {
            trimmed_nonempty(split_on(body, ','))
        },
        from_table: table_part(rest),
        where_clause: where_part(rest),
        order_clause: order_part(rest),
    }
}

/// The position of the first occurrence of `kw` in `h`, or `None`.
fn find_keyword(h: &Vec<char>, kw: &str) -> (r: Option<usize>)
    ensures
        match r {
            Some(i) => find_from(h@, kw@, 0) == Some(i as int),
            None => find_from(h@, kw@, 0) is None,
        },
{
    let p = chars_of(kw);
    find_exec(h, &p, 0)
}

/// The trimmed text of `v[from..to]`.
fn trimmed_range(v: &Vec<char>, from: usize, to: usize) -> (s: String)
    requires
        from <= to <= v.len(),
    ensures
        s@ == trim(v@.subrange(from as int, to as int)),
{
    let mut part: Vec<char> = Vec::new();
    let mut i = from;
    while i < to
        invariant
            from <= i <= to <= v.len(),
            part@ == v@.subrange(from as int, i as int),
        decreases to - i,
    {
        part.push(v[i]);
        i = i + 1;
        assert(part@ =~= v@.subrange(from as int, i as int));
    }
    let (a, b) = trim_bounds(&part);
    string_from_range(&part, a, b)
}

/// The trimmed, non-empty pieces of `v` between commas.
fn field_list(v: &Vec<char>) -> (r: Vec<String>)
    ensures
        r.deep_view() == trimmed_nonempty(split_on(v@, ',')),
{
    let pieces = split_exec(v, ',');
    let ghost pv = pieces@.map_values(|p: Vec<char>| p@);
    let mut out: Vec<String> = Vec::new();
    let mut i: usize = 0;
    while i < pieces.len()
        invariant
            i <= pieces.len(),
            pv == pieces@.map_values(|p: Vec<char>| p@),
            pv == split_on(v@, ','),
            out.deep_view() == trimmed_nonempty(pv.take(i as int)),
        decreases pieces.len() - i,
    {
        assert(pv.take(i + 1).drop_last() =~= pv.take(i as int));
        assert(pv.take(i + 1).last() == pieces[i as int]@);
        let (a, b) = trim_bounds(&pieces[i]);
        if a < b {
            let t = string_from_range(&pieces[i], a, b);
            let ghost before = out.deep_view();
            out.push(t);
            assert(out.deep_view() =~= before.push(trim(pieces[i as int]@)));
        }
        i = i + 1;
    }
    assert(pv.take(pieces.len() as int) =~= pv);
    out
}

/// The earliest position in `h` of one of the table-ending keywords.
fn table_end(h: &Vec<char>) -> (r: Option<usize>)
    ensures
        match r {
            Some(i) => first_keyword(h@, table_end_keywords()) == Some(i as int),
            None => first_keyword(h@, table_end_keywords()) is None,
        },
{
    let ghost kws = table_end_keywords();
    let mut best: Option<usize> = None;
    let mut n: usize = 0;
    while n < 6
        invariant
            n <= 6,
            kws == table_end_keywords(),
            match best {
                Some(i) => first_keyword(h@, kws.take(n as int)) == Some(i as int),
                None => first_keyword(h@, kws.take(n as int)) is None,
            },
        decreases 6 - n,
    {
        let kw = if n == 0 {
            " WHERE "
        } else if n == 1 {
            " ORDER "
        } else if n == 2 {
            " INNER "
        } else if n == 3 {
            " LEFT "
        } else if n == 4 {
            " RIGHT "
        } else {
            " JOIN "
        };
        assert(kw@ == kws[n as int]);
        assert(kws.take(n + 1).drop_last() =~= kws.take(n as int));
        assert(kws.take(n + 1).last() == kws[n as int]);
        let found = find_keyword(h, kw);
        best = match found {
            None => best,
            Some(i) => match best {
                Some(j) => if j <= i {
                    Some(j)
                } else {
                    Some(i)
                },
                None => Some(i),
            },
        };
        n = n + 1;
    }
    assert(kws.take(6) =~= kws);
    best
}

/// Takes a SELECT statement apart into the selected fields, the table, and
/// the WHERE and ORDER BY clauses.
pub fn parse_select_sql(sql: &str) -> (p: SelectParts)
    ensures
        p@ == parse_select(sql@),
{
    let raw = chars_of(sql);
    let norm = normalize_whitespace(&raw);
    let up = ascii_uppercase(&norm);
    let ghost nv = norm@;
    proof {
        reveal_strlit(" FROM ");
        reveal_strlit(" WHERE ");
        reveal_strlit(" ORDER ");
        reveal_strlit(" ORDER BY ");
        reveal_strlit("*");
    }
    // SELECT body (between "SELECT " and " FROM ").
    let from_at = match find_keyword(&up, " FROM ") {
        Some(i) => i,
        None => norm.len(),
    };
    proof {
        crate::text::lemma_find_from(up@, " FROM "@, 0);
    }
    assert(from_at == from_position(nv));
    let body: Vec<char> = match char_index_at_byte(&norm, 7) {
        Some(k) => {
            if k <= from_at {
                let t = trimmed_range(&norm, k, from_at);
                chars_of(t.as_str())
            } else {
                vec!['*']
            }
        },
        None => vec!['*'],
    };
    assert(body@ =~= select_body(nv, from_at as int));
    let star = body.len() == 1 && body[0] == '*';
    assert(star == (body@ =~= "*"@));
    let fields = if star {
        Vec::new()
    } else {
        field_list(&body)
    };
    assert(fields.deep_view() =~= parse_select(sql@).fields);
    // Everything after FROM.
    let mut rest: Vec<char> = Vec::new();
    if norm.len() >= 6 && from_at <= norm.len() - 6 {
        let mut i = from_at + 6;
        while i < norm.len()
            invariant
                from_at + 6 <= i <= norm.len(),
                rest@ == norm@.subrange(from_at + 6, i as int),
            decreases norm.len() - i,
        {
            rest.push(norm[i]);
            i = i + 1;
            assert(rest@ =~= norm@.subrange(from_at + 6, i as int));
        }
        assert(rest@ =~= norm@.skip(from_at + 6));
    } else {
        assert(rest@ =~= Seq::<char>::empty());
    }
    assert(rest@ == after_from(nv));
    let up_rest = ascii_uppercase(&rest);
    // The table name ends at the first clause keyword.
    let end = match table_end(&up_rest) {
        Some(i) => i,
        None => rest.len(),
    };
    proof {
        if let Some(i) = first_keyword(up_rest@, table_end_keywords()) {
            lemma_first_keyword_bound(up_rest@, table_end_keywords());
        }
    }
    let from_table = trimmed_range(&rest, 0, end);
    assert(rest@.subrange(0, end as int) =~= rest@.take(end as int));
    // WHERE clause up to ORDER.
    let where_clause = match find_keyword(&up_rest, " WHERE ") {
        Some(i) => {
            proof {
                crate::text::lemma_find_from(up_rest@, " WHERE "@, 0);
            }
            let mut s: Vec<char> = Vec::new();
            let mut k = i + 7;
            while k < rest.len()
                invariant
                    i + 7 <= k <= rest.len(),
                    s@ == rest@.subrange(i + 7, k as int),
                decreases rest.len() - k,
            {
                s.push(rest[k]);
                k = k + 1;
                assert(s@ =~= rest@.subrange(i + 7, k as int));
            }
            assert(s@ =~= rest@.skip(i + 7));
            let up_s = ascii_uppercase(&s);
            let e = match find_keyword(&up_s, " ORDER ") {
                Some(e) => e,
                None => s.len(),
            };
            proof {
                crate::text::lemma_find_from(up_s@, " ORDER "@, 0);
            }
            assert(s@.subrange(0, e as int) =~= s@.take(e as int));
            trimmed_range(&s, 0, e)
        },
        None => String::new(),
    };
    assert(where_clause@ =~= where_part(rest@));
    let order_clause = match find_keyword(&up_rest, " ORDER BY ") {
        Some(i) => {
            proof {
                crate::text::lemma_find_from(up_rest@, " ORDER BY "@, 0);
            }
            assert(rest@.subrange(i + 10, rest@.len() as int) =~= rest@.skip(i + 10));
            trimmed_range(&rest, i + 10, rest.len())
        },
        None => String::new(),
    };
    assert(order_clause@ =~= order_part(rest@));
    SelectParts { select_star: star, fields, from_table, where_clause, order_clause }
}

/// Respacing a statement does not change how it is parsed: two statements
/// with the same words (the same maximal runs of non-whitespace, in order)
/// parse alike, whatever whitespace separates, leads or trails them.
pub proof fn lemma_parse_ignores_spacing(s1: Seq<char>, s2: Seq<char>)
    requires
        words(s1) == words(s2),
    ensures
        parse_select(s1) == parse_select(s2),
{
}

/// `first_keyword` finds a position inside the text.
pub proof fn lemma_first_keyword_bound(h: Seq<char>, kws: Seq<Seq<char>>)
    ensures
        match first_keyword(h, kws) {
            Some(i) => 0 <= i <= h.len(),
            None => true,
        },
    decreases kws.len(),
{
    if kws.len() > 0 {
        lemma_first_keyword_bound(h, kws.drop_last());
        crate::text::lemma_find_from(h, kws.last(), 0);
    }
}


// ── Joins of the customiser ──────────────────────────────────────────────────

/// How a table is joined.
#[derive(Debug, Clone, Copy, PartialEq, Eq, Structural)]
pub enum JoinType {
    Inner,
    Left,
}

impl Default for JoinType {
    fn default() -> (r: Self)
        ensures
            r == JoinType::Inner,
    {
        JoinType::Inner
    }
}

/// The SQL keyword of a join type.
pub open spec fn join_keyword(t: JoinType) -> Seq<char> {
    match t {
        JoinType::Inner => "INNER JOIN"@,
        JoinType::Left => "LEFT JOIN"@,
    }
}

impl JoinType {
    /// Every join type, in the order the customiser offers them.
    pub fn all() -> (r: Vec<JoinType>)
        ensures
            r@ == seq![JoinType::Inner, JoinType::Left],
    {
        let r = vec![JoinType::Inner, JoinType::Left];
        assert(r@ =~= seq![JoinType::Inner, JoinType::Left]);
        r
    }

    /// The SQL keyword of the join type, as it is shown.
    pub fn label(&self) -> (r: String)
        ensures
            r@ == join_keyword(*self),
    {
        match self {
            JoinType::Inner => String::from_str("INNER JOIN"),
            JoinType::Left => String::from_str("LEFT JOIN"),
        }
    }
}

/// A join the user added: type, table and ON condition as typed.
#[derive(Debug)]
pub struct JoinDef {
    pub join_type: JoinType,
    pub table: String,
    pub on_condition: String,
}

impl Default for JoinDef {
    fn default() -> (r: Self)
        ensures
            r.join_type == JoinType::Inner,
            r.table@.len() == 0,
            r.on_condition@.len() == 0,
    {
        JoinDef { join_type: JoinType::Inner, table: String::new(), on_condition: String::new() }
    }
}

/// The line a join adds to the SQL: nothing for a blank table; the keyword
/// and the trimmed table, with ` ON ` and the trimmed condition when there is one.
pub open spec fn join_line(j: JoinDef) -> Seq<char> {
    if trim(j.table@).len() == 0 {
        Seq::empty()
    } else if trim(j.on_condition@).len() == 0 {
        "\n"@ + join_keyword(j.join_type) + " "@ + trim(j.table@)
    } else {
        "\n"@ + join_keyword(j.join_type) + " "@ + trim(j.table@) + " ON "@ + trim(
            j.on_condition@,
        )
    }
}

/// The lines of all joins, in order.
pub open spec fn join_lines(js: Seq<JoinDef>) -> Seq<char>
    decreases js.len(),
{
    if js.len() == 0 {
        Seq::empty()
    } else {
        join_lines(js.drop_last()) + join_line(js.last())
    }
}

// ── Customiser ───────────────────────────────────────────────────────────────

/// The editable form of a template's SELECT statement.
#[derive(Debug)]
pub struct QueryCustomiser {
    pub base_table: String,
    /// Every known column (from the schema or the template), in order.
    pub available_columns: Vec<String>,
    /// The columns currently in the SELECT list.
    pub selected_fields: Vec<String>,
    /// Text typed for adding a field by hand.
    pub new_field_input: String,
    /// The WHERE clause, still holding its `{param}` placeholders.
    pub where_clause: String,
    pub order_clause: String,
    pub joins: Vec<JoinDef>,
}

/// The SQL that a customiser state stands for.
pub open spec fn customiser_sql(c: QueryCustomiser) -> Seq<char> {
    let select = if c.selected_fields@.len() == 0 {
        "*"@
    } else {
        join(c.selected_fields.deep_view(), ", "@)
    };
    let base = "SELECT "@ + select + "\nFROM "@ + c.base_table@ + join_lines(c.joins@);
    let with_where = if c.where_clause@.len() == 0 {
        base
    } else {
        base + "\nWHERE "@ + c.where_clause@
    };
    if c.order_clause@.len() == 0 {
        with_where
    } else {
        with_where + "\nORDER BY "@ + c.order_clause@
    }
}

/// Some entry of `list` equals `f` up to ASCII case.
pub open spec fn has_ignore_case(list: Seq<Seq<char>>, f: Seq<char>) -> bool {
    exists|i: int| 0 <= i < list.len() && eq_ignore_ascii_case(#[trigger] list[i], f)
}

/// The first entry of `list` equal to `f` up to ASCII case, or `f` itself.
pub open spec fn match_ignore_case(list: Seq<Seq<char>>, f: Seq<char>, k: int) -> Seq<char>
    decreases list.len() - k,
{
    if k < 0 || k >= list.len() {
        f
    } else if eq_ignore_ascii_case(list[k], f) {
        list[k]
    } else {
        match_ignore_case(list, f, k + 1)
    }
}

/// `base` followed by each field of `fields` that it (as grown so far) does
/// not hold up to ASCII case.
pub open spec fn add_missing(base: Seq<Seq<char>>, fields: Seq<Seq<char>>) -> Seq<Seq<char>>
    decreases fields.len(),
{
    if fields.len() == 0 {
        base
    } else {
        let a = add_missing(base, fields.drop_last());
        if has_ignore_case(a, fields.last()) {
            a
        } else {
            a.push(fields.last())
        }
    }
}

/// The columns a customiser offers for a parsed template: the schema's
/// columns of the table, then the template's own fields not among them.
pub open spec fn offered_columns(s: Schema, p: SelectPartsView) -> Seq<Seq<char>> {
    let known = match table_index(s, p.from_table) {
        Some(k) => column_names(s.tables@[k]),
        None => Seq::empty(),
    };
    add_missing(known, p.fields)
}

/// The columns a customiser starts with selected: all offered ones for
/// `SELECT *`, else each field as spelled in the offered list.
pub open spec fn initially_selected(s: Schema, p: SelectPartsView) -> Seq<Seq<char>> {
    let avail = offered_columns(s, p);
    if p.select_star {
        avail
    } else {
        p.fields.map_values(|f: Seq<char>| match_ignore_case(avail, f, 0))
    }
}

/// The first entry of `list` equal to `f` up to ASCII case.
fn position_ignore_case(list: &Vec<String>, f: &String) -> (r: Option<usize>)
    ensures
        match r {
            Some(k) => k < list.len() && match_ignore_case(list.deep_view(), f@, 0)
                == list.deep_view()[k as int] && has_ignore_case(list.deep_view(), f@),
            None => match_ignore_case(list.deep_view(), f@, 0) == f@ && !has_ignore_case(
                list.deep_view(),
                f@,
            ),
        },
{
    let ghost l = list.deep_view();
    let mut i: usize = 0;
    while i < list.len()
        invariant
            i <= list.len(),
            l == list.deep_view(),
            l.len() == list.len(),
            match_ignore_case(l, f@, 0) == match_ignore_case(l, f@, i as int),
            forall|j: int| 0 <= j < i ==> !eq_ignore_ascii_case(#[trigger] l[j], f@),
        decreases list.len() - i,
    {
        assert(l[i as int] == list[i as int]@);
        if eq_ignore_case_exec(list[i].as_str(), f.as_str()) {
            return Some(i);
        }
        i = i + 1;
    }
    None
}

/// `c` is the customiser of a template with this SQL: its SELECT taken
/// apart, the columns of its table taken from the schema, nothing typed, no
/// joins.
pub open spec fn customiser_for(c: QueryCustomiser, sql: Seq<char>, s: Schema) -> bool {
    let p = parse_select(sql);
    &&& c.base_table@ == p.from_table
    &&& c.available_columns.deep_view() == offered_columns(s, p)
    &&& c.selected_fields.deep_view() == initially_selected(s, p)
    &&& c.new_field_input@.len() == 0
    &&& c.where_clause@ == p.where_clause
    &&& c.order_clause@ == p.order_clause
    &&& c.joins@.len() == 0
}

impl QueryCustomiser {
    /// The customiser for a template: its SELECT taken apart, the columns of
    /// its table taken from `schema`.
    pub fn from_template(tmpl: &QueryTemplate, schema: &Schema) -> (c: QueryCustomiser)
        ensures
            customiser_for(c, tmpl.sql@, *schema),
    {
        let p = parse_select_sql(tmpl.sql.as_str());
        let ghost pv = p@;
        let mut available: Vec<String> = match schema.column_names_of(p.from_table.as_str()) {
            Some(v) => v,
            None => Vec::new(),
        };
        assert(available.deep_view() =~= add_missing(
            match table_index(*schema, pv.from_table) {
                Some(k) => column_names(schema.tables@[k]),
                None => Seq::empty(),
            },
            pv.fields.take(0),
        ));
        let ghost known = available.deep_view();
        let mut i: usize = 0;
        while i < p.fields.len()
            invariant
                i <= p.fields.len(),
                pv == p@,
                available.deep_view() == add_missing(known, pv.fields.take(i as int)),
            decreases p.fields.len() - i,
        {
            assert(pv.fields.take(i + 1).drop_last() =~= pv.fields.take(i as int));
            assert(pv.fields.take(i + 1).last() == p.fields[i as int]@);
            match position_ignore_case(&available, &p.fields[i]) {
                Some(_) => {},
                None => {
                    let ghost before = available.deep_view();
                    available.push(p.fields[i].clone());
                    assert(available.deep_view() =~= before.push(p.fields[i as int]@));
                },
            }
            i = i + 1;
        }
        assert(pv.fields.take(p.fields.len() as int) =~= pv.fields);
        let selected = if p.select_star {
            copy_strings(&available)
        } else {
            let mut sel: Vec<String> = Vec::new();
            let mut k: usize = 0;
            while k < p.fields.len()
                invariant
                    k <= p.fields.len(),
                    pv == p@,
                    sel.deep_view() == pv.fields.take(k as int).map_values(
                        |f: Seq<char>| match_ignore_case(available.deep_view(), f, 0),
                    ),
                decreases p.fields.len() - k,
            {
                let ghost before = sel.deep_view();
                let chosen = match position_ignore_case(&available, &p.fields[k]) {
                    Some(m) => available[m].clone(),
                    None => p.fields[k].clone(),
                };
                assert(pv.fields[k as int] == p.fields[k as int]@);
                sel.push(chosen);
                assert(sel.deep_view() =~= before.push(chosen@));
                k = k + 1;
                assert(sel.deep_view() =~= pv.fields.take(k as int).map_values(
                    |f: Seq<char>| match_ignore_case(available.deep_view(), f, 0),
                ));
            }
            assert(pv.fields.take(p.fields.len() as int) =~= pv.fields);
            sel
        };
        QueryCustomiser {
            base_table: p.from_table,
            available_columns: available,
            selected_fields: selected,
            new_field_input: String::new(),
            where_clause: p.where_clause,
            order_clause: p.order_clause,
            joins: Vec::new(),
        }
    }

    /// The SQL that the customiser's state stands for.
    pub fn build_sql(&self) -> (r: String)
        ensures
            r@ == customiser_sql(*self),
    {
        let mut sql = String::new();
        push_all(&mut sql, "SELECT ");
        if self.selected_fields.len() == 0 {
            push_all(&mut sql, "*");
        } else {
            let cols = join_strings(&self.selected_fields, ", ");
            push_all(&mut sql, cols.as_str());
        }
        push_all(&mut sql, "\nFROM ");
        push_all(&mut sql, self.base_table.as_str());
        let ghost head = sql@;
        let mut i: usize = 0;
        while i < self.joins.len()
            invariant
                i <= self.joins.len(),
                sql@ == head + join_lines(self.joins@.take(i as int)),
            decreases self.joins.len() - i,
        {
            let j = &self.joins[i];
            assert(self.joins@.take(i + 1).drop_last() =~= self.joins@.take(i as int));
            assert(self.joins@.take(i + 1).last() == *j);
            let ghost before = sql@;
            let table = trim_string(j.table.as_str());
            if table.as_str().is_empty() {
                assert(sql@ =~= before + join_line(*j));
            } else {
                let on = trim_string(j.on_condition.as_str());
                push_all(&mut sql, "\n");
                let kw = j.join_type.label();
                push_all(&mut sql, kw.as_str());
                push_all(&mut sql, " ");
                push_all(&mut sql, table.as_str());
                if !on.as_str().is_empty() {
                    push_all(&mut sql, " ON ");
                    push_all(&mut sql, on.as_str());
                }
                assert(sql@ =~= before + join_line(*j));
            }
            i = i + 1;
        }
        assert(self.joins@.take(self.joins.len() as int) =~= self.joins@);
        if !self.where_clause.as_str().is_empty() {
            push_all(&mut sql, "\nWHERE ");
            push_all(&mut sql, self.where_clause.as_str());
        }
        if !self.order_clause.as_str().is_empty() {
            push_all(&mut sql, "\nORDER BY ");
            push_all(&mut sql, self.order_clause.as_str());
        }
        sql
    }
}

} // verus!
