//! The "from scratch" query: SQL built from chosen tables and columns, and
//! the reverse, tables and columns recognised in pasted SQL.
use vstd::prelude::*;
use crate::joins::path_view;
use crate::lists::{lemma_push_new_unrepeated, push_new, push_unique};
use crate::customiser::{after_from, first_keyword, from_position, lemma_first_keyword_bound, upper};
use crate::schema::{is_known_table, table_has_column, Schema};
use crate::text::{
    ascii_uppercase, char_at_byte, char_index_at_byte, chars_of, find_exec,
    find_from, join, join_strings, lemma_find_from, normalize_space, normalize_whitespace,
    push_all, split_exec, split_on, string_from_chars, string_from_range, trim, trim_bounds,
};

verus! {

// ── Building ─────────────────────────────────────────────────────────────────

/// The `LEFT JOIN` lines for the steps after the base table.
pub open spec fn left_join_lines(steps: Seq<(Seq<char>, Seq<char>)>) -> Seq<char>
    decreases steps.len(),
{
    if steps.len() == 0 {
        Seq::empty()
    } else {
        let s = steps.last();
        let line = if s.1.len() == 0 {
            "\nLEFT JOIN "@ + s.0
        } else {
            "\nLEFT JOIN "@ + s.0 + "\n    ON "@ + s.1
        };
        left_join_lines(steps.drop_last()) + line
    }
}

/// The SQL of a from-scratch selection: nothing without tables; else the
/// columns (or `*`), one per line, from the first table, LEFT JOINing the rest.
pub open spec fn scratch_sql(
    steps: Seq<(Seq<char>, Seq<char>)>,
    columns: Seq<Seq<char>>,
) -> Seq<char> {
    if steps.len() == 0 {
        Seq::empty()
    } else {
        let select = if columns.len() == 0 {
            "*"@
        } else {
            join(columns, ",\n    "@)
        };
        "SELECT "@ + select + "\nFROM "@ + steps[0].0 + left_join_lines(steps.skip(1))
    }
}

/// The SQL for a join plan and the chosen columns.
pub fn build_scratch_sql(steps: &Vec<(String, String)>, columns: &Vec<String>) -> (r: String)
    ensures
        r@ == scratch_sql(path_view(steps@), columns.deep_view()),
{
    let ghost sv = path_view(steps@);
    if steps.len() == 0 {
        return String::new();
    }
    let mut sql = String::new();
    push_all(&mut sql, "SELECT ");
    if columns.len() == 0 {
        push_all(&mut sql, "*");
    } else {
        let cols = join_strings(columns, ",\n    ");
        push_all(&mut sql, cols.as_str());
    }
    push_all(&mut sql, "\nFROM ");
    push_all(&mut sql, steps[0].0.as_str());
    let ghost head = sql@;
    let mut i: usize = 1;
    assert(sv.skip(1).take(0) =~= Seq::<(Seq<char>, Seq<char>)>::empty());
    while i < steps.len()
        invariant
            1 <= i <= steps.len(),
            sv == path_view(steps@),
            sql@ == head + left_join_lines(sv.skip(1).take(i - 1)),
        decreases steps.len() - i,
    {
        let s = &steps[i];
        assert(sv.skip(1).take(i as int).drop_last() =~= sv.skip(1).take(i - 1));
        assert(sv.skip(1).take(i as int).last() == (s.0@, s.1@));
        let ghost before = sql@;
        push_all(&mut sql, "\nLEFT JOIN ");
        push_all(&mut sql, s.0.as_str());
        if !s.1.as_str().is_empty() {
            push_all(&mut sql, "\n    ON ");
            push_all(&mut sql, s.1.as_str());
        }
        i = i + 1;
        assert(sql@ =~= head + left_join_lines(sv.skip(1).take(i - 1)));
    }
    assert(sv.skip(1).take(steps.len() - 1) =~= sv.skip(1));
    sql
}

// ── Recognising pasted SQL ───────────────────────────────────────────────────

/// The keywords that end a table name in pasted SQL.
pub open spec fn clause_keywords() -> Seq<Seq<char>> {
    seq![
        " WHERE "@,
        " ORDER "@,
        " INNER "@,
        " LEFT "@,
        " RIGHT "@,
        " JOIN "@,
        " CROSS "@,
        " ON "@,
    ]
}

/// The text of `s` up to the first clause keyword, trimmed.
pub open spec fn name_before_clause(s: Seq<char>) -> Seq<char> {
    let end = match first_keyword(upper(s), clause_keywords()) {
        Some(i) => i,
        None => s.len() as int,
    };
    trim(s.take(end))
}

/// The names after each ` JOIN ` at or after position `k` of the text after
/// FROM, the empty ones left out.
pub open spec fn joined_names(rest: Seq<char>, k: int) -> Seq<Seq<char>>
    decreases rest.len() + 1 - k,
{
    if k < 0 || k > rest.len() {
        Seq::empty()
    } else {
        match find_from(upper(rest), " JOIN "@, k) {
            Some(m) => if k <= m && m + 6 <= rest.len() {
                let name = name_before_clause(rest.skip(m + 6));
                let later = joined_names(rest, m + 6);
                if name.len() > 0 {
                    seq![name] + later
                } else {
                    later
                }
            } else {
                Seq::empty()
            },
            None => Seq::empty(),
        }
    }
}

/// The table names of pasted SQL: the one after FROM, then one after each JOIN.
pub open spec fn pasted_table_names(sql: Seq<char>) -> Seq<Seq<char>> {
    let rest = after_from(normalize_space(sql));
    seq![name_before_clause(rest)] + joined_names(rest, 0)
}

/// The SELECT list of pasted SQL: trimmed, non-empty entries other than `*`.
pub open spec fn pasted_fields(sql: Seq<char>) -> Seq<Seq<char>> {
    let norm = normalize_space(sql);
    let from_at = from_position(norm);
    let body = match char_at_byte(norm, 7, 0) {
        Some(k) => if k <= from_at {
            trim(norm.subrange(k, from_at))
        } else {
            Seq::empty()
        },
        None => Seq::empty(),
    };
    fields_of(split_on(body, ','))
}

/// The trimmed pieces that are neither empty nor `*`.
pub open spec fn fields_of(pieces: Seq<Seq<char>>) -> Seq<Seq<char>>
    decreases pieces.len(),
{
    if pieces.len() == 0 {
        Seq::empty()
    } else {
        let t = trim(pieces.last());
        if t.len() > 0 && t != "*"@ {
            fields_of(pieces.drop_last()).push(t)
        } else {
            fields_of(pieces.drop_last())
        }
    }
}

/// The tables of `names` that the schema knows (uppercased, each once), and
/// the other non-empty names (as written, each once).
pub open spec fn sort_tables(s: Schema, names: Seq<Seq<char>>) -> (Seq<Seq<char>>, Seq<Seq<char>>)
    decreases names.len(),
{
    if names.len() == 0 {
        (Seq::empty(), Seq::empty())
    } else {
        let (known, unknown) = sort_tables(s, names.drop_last());
        let t = names.last();
        if is_known_table(s, upper(t)) {
            (push_new(known, upper(t)), unknown)
        } else if t.len() > 0 {
            (known, push_new(unknown, t))
        } else {
            (known, unknown)
        }
    }
}

/// The position of the first `.` in `s`.
pub open spec fn first_dot(s: Seq<char>, k: int) -> Option<int>
    decreases s.len() - k,
{
    if k < 0 || k >= s.len() {
        None
    } else if s[k] == '.' {
        Some(k)
    } else {
        first_dot(s, k + 1)
    }
}

/// The first of `tables` (from position `k` on) that has column `col`.
pub open spec fn first_table_with(s: Schema, tables: Seq<Seq<char>>, col: Seq<char>, k: int) -> Option<
    int,
>
    decreases tables.len() - k,
{
    if k < 0 || k >= tables.len() {
        None
    } else if table_has_column(s, tables[k], col) {
        Some(k)
    } else {
        first_table_with(s, tables, col, k + 1)
    }
}

/// `TABLE.COLUMN`.
pub open spec fn qualified(table: Seq<char>, col: Seq<char>) -> Seq<char> {
    table + seq!['.'] + col
}

/// Where one SELECT entry goes: `Ok` with the qualified column when the schema
/// knows it, `Err` with the name to flag as unknown.
pub open spec fn place_field(s: Schema, tables: Seq<Seq<char>>, field: Seq<char>) -> Result<
    Seq<char>,
    Seq<char>,
> {
    let f = upper(field);
    match first_dot(f, 0) {
        Some(d) => {
            let tbl = f.take(d);
            let col = f.skip(d + 1);
            if is_known_table(s, tbl) {
                if table_has_column(s, tbl, col) {
                    Ok(qualified(tbl, col))
                } else {
                    Err(qualified(tbl, col))
                }
            } else {
                Err(f)
            }
        },
        None => match first_table_with(s, tables, f, 0) {
            Some(k) => Ok(qualified(tables[k], f)),
            None => Err(f),
        },
    }
}

/// The known columns (each once) and the unknown names (each once) of the
/// SELECT entries, searching unqualified names in `tables` in order.
pub open spec fn sort_fields(s: Schema, tables: Seq<Seq<char>>, fields: Seq<Seq<char>>) -> (Seq<
    Seq<char>,
>, Seq<Seq<char>>)
    decreases fields.len(),
{
    if fields.len() == 0 {
        (Seq::empty(), Seq::empty())
    } else {
        let (known, unknown) = sort_fields(s, tables, fields.drop_last());
        match place_field(s, tables, fields.last()) {
            Ok(q) => (push_new(known, q), unknown),
            Err(u) => (known, push_new(unknown, u)),
        }
    }
}

/// What was recognised in pasted SQL.
pub struct PastedSelection {
    pub tables: Vec<String>,
    pub columns: Vec<String>,
    pub unknown_tables: Vec<String>,
    pub unknown_columns: Vec<String>,
}

/// The characters `v[from..]`.
fn tail_of(v: &Vec<char>, from: usize) -> (r: Vec<char>)
    requires
        from <= v.len(),
    ensures
        r@ == v@.skip(from as int),
{
    let mut r: Vec<char> = Vec::new();
    let mut i = from;
    while i < v.len()
        invariant
            from <= i <= v.len(),
            r@ == v@.subrange(from as int, i as int),
        decreases v.len() - i,
    {
        r.push(v[i]);
        i = i + 1;
        assert(r@ =~= v@.subrange(from as int, i as int));
    }
    assert(r@ =~= v@.skip(from as int));
    r
}

/// The earliest position in `h` of one of the clause keywords.
fn clause_end(h: &Vec<char>) -> (r: Option<usize>)
    ensures
        match r {
            Some(i) => first_keyword(h@, clause_keywords()) == Some(i as int),
            None => first_keyword(h@, clause_keywords()) is None,
        },
{
    let ghost kws = clause_keywords();
    let mut best: Option<usize> = None;
    let mut n: usize = 0;
    while n < 8
        invariant
            n <= 8,
            kws == clause_keywords(),
            match best {
                Some(i) => first_keyword(h@, kws.take(n as int)) == Some(i as int),
                None => first_keyword(h@, kws.take(n as int)) is None,
            },
        decreases 8 - n,
    {
        let kw = if n == 0 {
            " WHERE "
        } else if n == 1 {
            " ORDER "
        } else if n == 2 {
            " INNER "
        } else if n == 3 {
            " LEFT "
        } else if n == 4 {
            " RIGHT "
        } else if n == 5 {
            " JOIN "
        } else if n == 6 {
            " CROSS "
        } else {
            " ON "
        };
        assert(kw@ == kws[n as int]);
        assert(kws.take(n + 1).drop_last() =~= kws.take(n as int));
        assert(kws.take(n + 1).last() == kws[n as int]);
        let p = chars_of(kw);
        let found = find_exec(h, &p, 0);
        best = match found {
            None => best,
            Some(i) => match best {
                Some(j) => if j <= i {
                    Some(j)
                } else {
                    Some(i)
                },
                None => Some(i),
            },
        };
        n = n + 1;
    }
    assert(kws.take(8) =~= kws);
    best
}

/// The text of `s` up to the first clause keyword, trimmed.
fn name_before_clause_exec(s: &Vec<char>) -> (r: String)
    ensures
        r@ == name_before_clause(s@),
{
    let up = ascii_uppercase(s);
    let end = match clause_end(&up) {
        Some(i) => i,
        None => s.len(),
    };
    proof {
        lemma_first_keyword_bound(up@, clause_keywords());
    }
    let mut part: Vec<char> = Vec::new();
    let mut i: usize = 0;
    while i < end
        invariant
            end <= s.len(),
            i <= end,
            part@ == s@.take(i as int),
        decreases end - i,
    {
        part.push(s[i]);
        i = i + 1;
        assert(part@ =~= s@.take(i as int));
    }
    let (a, b) = trim_bounds(&part);
    string_from_range(&part, a, b)
}

/// The table names of pasted SQL, given the text after FROM.
fn table_names_after_from(rest: &Vec<char>) -> (r: Vec<String>)
    ensures
        r.deep_view() == seq![name_before_clause(rest@)] + joined_names(rest@, 0),
{
    proof {
        reveal_strlit(" JOIN ");
    }
    let up_rest = ascii_uppercase(rest);
    let join_kw = chars_of(" JOIN ");
    let mut names: Vec<String> = Vec::new();
    let first = name_before_clause_exec(rest);
    names.push(first);
    let ghost head = seq![name_before_clause(rest@)];
    assert(names.deep_view() =~= head);
    let mut search_from: usize = 0;
    assert(join_kw@.len() == 6);
    loop
        invariant
            search_from <= rest.len(),
            up_rest@ == upper(rest@),
            join_kw@ == " JOIN "@,
            join_kw@.len() == 6,
            head == seq![name_before_clause(rest@)],
            names.deep_view() + joined_names(rest@, search_from as int) == head + joined_names(
                rest@,
                0,
            ),
        decreases rest.len() + 1 - search_from,
    {
        match find_exec(&up_rest, &join_kw, search_from) {
            Some(m) => {
                proof {
                    lemma_find_from(up_rest@, join_kw@, search_from as int);
                }
                let abs = m + 6;
                let tail = tail_of(rest, abs);
                assert(upper(tail@) =~= upper(rest@).skip(abs as int));
                let name = name_before_clause_exec(&tail);
                let ghost before = names.deep_view();
                if !name.as_str().is_empty() {
                    names.push(name);
                    assert(names.deep_view() =~= before.push(name_before_clause(rest@.skip(abs as int))));
                }
                assert(names.deep_view() + joined_names(rest@, abs as int) =~= before
                    + joined_names(rest@, search_from as int));
                search_from = abs;
            },
            None => {
                assert(joined_names(rest@, search_from as int) =~= Seq::<Seq<char>>::empty());
                assert(names.deep_view() + joined_names(rest@, search_from as int) =~= names.deep_view());
                return names;
            },
        }
    }
}

/// The SELECT list of pasted SQL, given its normalised text.
fn pasted_fields_exec(norm: &Vec<char>, from_at: usize) -> (r: Vec<String>)
    requires
        from_at <= norm.len(),
    ensures
        r.deep_view() == fields_of(
            split_on(
                match char_at_byte(norm@, 7, 0) {
                    Some(k) => if k <= from_at {
                        trim(norm@.subrange(k, from_at as int))
                    } else {
                        Seq::empty()
                    },
                    None => Seq::empty(),
                },
                ',',
            ),
        ),
{
    let body: Vec<char> = match char_index_at_byte(norm, 7) {
        Some(k) => {
            if k <= from_at {
                let mut part: Vec<char> = Vec::new();
                let mut i = k;
                while i < from_at
                    invariant
                        k <= i <= from_at <= norm.len(),
                        part@ == norm@.subrange(k as int, i as int),
                    decreases from_at - i,
                {
                    part.push(norm[i]);
                    i = i + 1;
                    assert(part@ =~= norm@.subrange(k as int, i as int));
                }
                let (a, b) = trim_bounds(&part);
                let t = string_from_range(&part, a, b);
                chars_of(t.as_str())
            } else {
                Vec::new()
            }
        },
        None => Vec::new(),
    };
    let pieces = split_exec(&body, ',');
    let ghost pv = pieces@.map_values(|p: Vec<char>| p@);
    let mut out: Vec<String> = Vec::new();
    let mut i: usize = 0;
    proof {
        reveal_strlit("*");
    }
    while i < pieces.len()
        invariant
            i <= pieces.len(),
            pv == pieces@.map_values(|p: Vec<char>| p@),
            pv == split_on(body@, ','),
            out.deep_view() == fields_of(pv.take(i as int)),
        decreases pieces.len() - i,
    {
        assert(pv.take(i + 1).drop_last() =~= pv.take(i as int));
        assert(pv.take(i + 1).last() == pieces[i as int]@);
        let (a, b) = trim_bounds(&pieces[i]);
        let is_star = a < b && b - a == 1 && pieces[i][a] == '*';
        proof {
            reveal_strlit("*");
            let t = pieces[i as int]@.subrange(a as int, b as int);
            if is_star {
                assert(t =~= "*"@);
            } else if t =~= "*"@ {
                assert(t[0] == pieces[i as int]@[a as int]);
            }
        }
        if a < b && !is_star {
            let t = string_from_range(&pieces[i], a, b);
            let ghost before = out.deep_view();
            out.push(t);
            assert(out.deep_view() =~= before.push(trim(pieces[i as int]@)));
        }
        i = i + 1;
    }
    assert(pv.take(pieces.len() as int) =~= pv);
    out
}

/// Recognises the tables and columns of pasted SQL against the schema:
/// the known ones, uppercased and qualified, and the unknown ones to flag.
pub fn recognise_pasted_sql(sql: &str, schema: &Schema) -> (r: PastedSelection)
    ensures
        r.tables.deep_view() == sort_tables(*schema, pasted_table_names(sql@)).0,
        r.unknown_tables.deep_view() == sort_tables(*schema, pasted_table_names(sql@)).1,
        r.columns.deep_view() == sort_fields(
            *schema,
            sort_tables(*schema, pasted_table_names(sql@)).0,
            pasted_fields(sql@),
        ).0,
        r.unknown_columns.deep_view() == sort_fields(
            *schema,
            sort_tables(*schema, pasted_table_names(sql@)).0,
            pasted_fields(sql@),
        ).1,
{
    let raw = chars_of(sql);
    let norm = normalize_whitespace(&raw);
    let up = ascii_uppercase(&norm);
    proof {
        reveal_strlit(" FROM ");
    }
    let from_kw = chars_of(" FROM ");
    let from_at = match find_exec(&up, &from_kw, 0) {
        Some(i) => i,
        None => norm.len(),
    };
    proof {
        lemma_find_from(up@, " FROM "@, 0);
    }
    assert(from_at == from_position(norm@));
    let fields = pasted_fields_exec(&norm, from_at);
    let rest = if norm.len() >= 6 && from_at <= norm.len() - 6 {
        tail_of(&norm, from_at + 6)
    } else {
        Vec::new()
    };
    assert(rest@ =~= after_from(norm@));
    let names = table_names_after_from(&rest);
    // Tables against the schema.
    let mut tables: Vec<String> = Vec::new();
    let mut unknown_tables: Vec<String> = Vec::new();
    let ghost nv = names.deep_view();
    let mut i: usize = 0;
    while i < names.len()
        invariant
            i <= names.len(),
            nv == names.deep_view(),
            (tables.deep_view(), unknown_tables.deep_view()) == sort_tables(
                *schema,
                nv.take(i as int),
            ),
        decreases names.len() - i,
    {
        assert(nv.take(i + 1).drop_last() =~= nv.take(i as int));
        assert(nv.take(i + 1).last() == names[i as int]@);
        let tv = chars_of(names[i].as_str());
        let tup_v = ascii_uppercase(&tv);
        let tup = string_from_chars(&tup_v);
        if schema.find_table_index(tup.as_str()).is_some() {
            push_unique(&mut tables, tup);
        } else if !names[i].as_str().is_empty() {
            push_unique(&mut unknown_tables, names[i].clone());
        }
        i = i + 1;
    }
    assert(nv.take(names.len() as int) =~= nv);
    // SELECT entries against the schema.
    let mut columns: Vec<String> = Vec::new();
    let mut unknown_columns: Vec<String> = Vec::new();
    let ghost fv = fields.deep_view();
    let ghost tv = tables.deep_view();
    let mut j: usize = 0;
    while j < fields.len()
        invariant
            j <= fields.len(),
            fv == fields.deep_view(),
            tv == tables.deep_view(),
            (columns.deep_view(), unknown_columns.deep_view()) == sort_fields(
                *schema,
                tv,
                fv.take(j as int),
            ),
        decreases fields.len() - j,
    {
        assert(fv.take(j + 1).drop_last() =~= fv.take(j as int));
        assert(fv.take(j + 1).last() == fields[j as int]@);
        match place_field_exec(schema, &tables, &fields[j]) {
            Ok(q) => push_unique(&mut columns, q),
            Err(u) => push_unique(&mut unknown_columns, u),
        }
        j = j + 1;
    }
    assert(fv.take(fields.len() as int) =~= fv);
    PastedSelection { tables, columns, unknown_tables, unknown_columns }
}

/// Where one SELECT entry goes (see `place_field`).
fn place_field_exec(schema: &Schema, tables: &Vec<String>, field: &String) -> (r: Result<
    String,
    String,
>)
    ensures
        match r {
            Ok(q) => place_field(*schema, tables.deep_view(), field@) == Ok::<
                Seq<char>,
                Seq<char>,
            >(q@),
            Err(u) => place_field(*schema, tables.deep_view(), field@) == Err::<
                Seq<char>,
                Seq<char>,
            >(u@),
        },
{
    let fv = chars_of(field.as_str());
    let f = ascii_uppercase(&fv);
    let ghost fs = f@;
    assert(fs == crate::customiser::upper(field@));
    let mut d: usize = 0;
    while d < f.len() && f[d] != '.'
        invariant
            d <= f.len(),
            fs == f@,
            first_dot(fs, 0) == first_dot(fs, d as int),
        decreases f.len() - d,
    {
        d = d + 1;
    }
    if d < f.len() {
        assert(first_dot(fs, 0) == Some(d as int));
        let tbl = string_from_range(&f, 0, d);
        let col = string_from_range(&f, d + 1, f.len());
        assert(fs.subrange(0, d as int) =~= fs.take(d as int));
        assert(fs.subrange(d + 1, fs.len() as int) =~= fs.skip(d + 1));
        let mut q = String::new();
        push_all(&mut q, tbl.as_str());
        push_all(&mut q, ".");
        push_all(&mut q, col.as_str());
        proof {
            reveal_strlit(".");
        }
        assert(q@ =~= tbl@ + seq!['.'] + col@);
        if schema.find_table_index(tbl.as_str()).is_some() {
            if schema.has_column(tbl.as_str(), col.as_str()) {
                Ok(q)
            } else {
                Err(q)
            }
        } else {
            Err(string_from_chars(&f))
        }
    } else {
        assert(first_dot(fs, 0) is None);
        let fstr = string_from_chars(&f);
        let ghost tl = tables.deep_view();
        let mut k: usize = 0;
        while k < tables.len()
            invariant
                k <= tables.len(),
                tl == tables.deep_view(),
                fstr@ == fs,
                fs == crate::customiser::upper(field@),
                first_dot(fs, 0) is None,
                first_table_with(*schema, tl, fs, 0) == first_table_with(
                    *schema,
                    tl,
                    fs,
                    k as int,
                ),
            decreases tables.len() - k,
        {
            assert(tl[k as int] == tables[k as int]@);
            if schema.has_column(tables[k].as_str(), fstr.as_str()) {
                let mut q = String::new();
                push_all(&mut q, tables[k].as_str());
                push_all(&mut q, ".");
                push_all(&mut q, fstr.as_str());
                proof {
                    reveal_strlit(".");
                }
                assert(q@ =~= tl[k as int] + seq!['.'] + fs);
                return Ok(q);
            }
            k = k + 1;
        }
        Err(fstr)
    }
}

/// The recognised tables hold no table twice.
pub proof fn lemma_sort_tables_unrepeated(s: Schema, names: Seq<Seq<char>>)
    ensures
        sort_tables(s, names).0.no_duplicates(),
    decreases names.len(),
{
    if names.len() > 0 {
        lemma_sort_tables_unrepeated(s, names.drop_last());
        lemma_push_new_unrepeated(sort_tables(s, names.drop_last()).0, upper(names.last()));
    }
}

/// The recognised columns hold no column twice.
pub proof fn lemma_sort_fields_unrepeated(s: Schema, tables: Seq<Seq<char>>, fields: Seq<Seq<char>>)
    ensures
        sort_fields(s, tables, fields).0.no_duplicates(),
    decreases fields.len(),
{
    if fields.len() > 0 {
        lemma_sort_fields_unrepeated(s, tables, fields.drop_last());
        match place_field(s, tables, fields.last()) {
            Ok(q) => lemma_push_new_unrepeated(sort_fields(s, tables, fields.drop_last()).0, q),
            Err(_) => {},
        }
    }
}

} // verus!
