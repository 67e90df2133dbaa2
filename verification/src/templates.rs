//! Query templates: SQL text with `{name}` placeholders.
use vstd::prelude::*;
use crate::lists::{push_new, push_unique};
use crate::params::{has_key, ParamMap};
use crate::text::{
    matches_at, chars_of, contains_char, has_char, join, join_strings, push_all, replace_all, replace_exec,
    str_eq, string_from_chars, string_from_range,
};

verus! {

/// A named SQL template.
#[derive(Debug)]
pub struct QueryTemplate {
    pub id: String,
    pub group: Option<String>,
    pub name: String,
    pub description: String,
    pub sql: String,
}

/// The text of a template's fields.
pub struct TemplateView {
    pub id: Seq<char>,
    pub group: Option<Seq<char>>,
    pub name: Seq<char>,
    pub description: Seq<char>,
    pub sql: Seq<char>,
}

impl View for QueryTemplate {
    type V = TemplateView;

    open spec fn view(&self) -> TemplateView {
        TemplateView {
            id: self.id@,
            group: match self.group {
                Some(g) => Some(g@),
                None => None,
            },
            name: self.name@,
            description: self.description@,
            sql: self.sql@,
        }
    }
}

impl Clone for QueryTemplate {
    fn clone(&self) -> (r: Self)
        ensures
            r@ == self@,
    {
        QueryTemplate {
            id: self.id.clone(),
            group: match &self.group {
                Some(g) => Some(g.clone()),
                None => None,
            },
            name: self.name.clone(),
            description: self.description.clone(),
            sql: self.sql.clone(),
        }
    }
}

// ── Placeholders ─────────────────────────────────────────────────────────────

/// The first position at or after `k` that holds `}`, or the end of `s`.
pub open spec fn close_brace(s: Seq<char>, k: int) -> int
    decreases s.len() - k,
{
    if k < 0 || k >= s.len() {
        s.len() as int
    } else if s[k] == '}' {
        k
    } else {
        close_brace(s, k + 1)
    }
}

/// The placeholder keys of `s` from position `i` on: after each `{`, the
/// characters up to the next `}` (or the end); empty keys are skipped and the
/// scan goes on after the `}`.
pub open spec fn keys_from(s: Seq<char>, i: int) -> Seq<Seq<char>>
    decreases s.len() - i,
{
    if i < 0 || i >= s.len() {
        Seq::empty()
    } else if s[i] != '{' {
        keys_from(s, i + 1)
    } else {
        let j = close_brace(s, i + 1);
        let key = s.subrange(i + 1, j);
        let rest = if j < s.len() {
            proof {
                lemma_close_brace(s, i + 1);
            }
            keys_from(s, j + 1)
        } else {
            Seq::empty()
        };
        if key.len() > 0 {
            seq![key] + rest
        } else {
            rest
        }
    }
}

/// The placeholder keys of `s`, in order of appearance.
pub open spec fn placeholder_keys(s: Seq<char>) -> Seq<Seq<char>> {
    keys_from(s, 0)
}

/// `{key}`.
pub open spec fn placeholder(key: Seq<char>) -> Seq<char> {
    seq!['{'] + key + seq!['}']
}

/// `sql` with each entry's placeholder replaced by its value, entry by entry
/// in order.
pub open spec fn apply_params(sql: Seq<char>, entries: Seq<(Seq<char>, Seq<char>)>) -> Seq<char>
    decreases entries.len(),
{
    if entries.len() == 0 {
        sql
    } else {
        replace_all(
            apply_params(sql, entries.drop_last()),
            placeholder(entries.last().0),
            entries.last().1,
        )
    }
}

/// The keys that no entry names, in order.
pub open spec fn missing_keys(keys: Seq<Seq<char>>, entries: Seq<(Seq<char>, Seq<char>)>) -> Seq<
    Seq<char>,
>
    decreases keys.len(),
{
    if keys.len() == 0 {
        Seq::empty()
    } else if has_key(entries, keys.last()) {
        missing_keys(keys.drop_last(), entries)
    } else {
        missing_keys(keys.drop_last(), entries).push(keys.last())
    }
}

/// What rendering `sql` with `entries` gives: the substituted text, or, when a
/// `{` is left in it, the list of keys without a value.
pub open spec fn render_result(sql: Seq<char>, entries: Seq<(Seq<char>, Seq<char>)>) -> Result<
    Seq<char>,
    Seq<char>,
> {
    let s = apply_params(sql, entries);
    if has_char(s, '{') {
        Err("Missing parameters: "@ + join(missing_keys(placeholder_keys(sql), entries), ", "@))
    } else {
        Ok(s)
    }
}

/// Where `close_brace` stops: at a `}` or at the end, past no other `}`.
pub proof fn lemma_close_brace(s: Seq<char>, k: int)
    requires
        0 <= k <= s.len(),
    ensures
        k <= close_brace(s, k) <= s.len(),
        close_brace(s, k) < s.len() ==> s[close_brace(s, k)] == '}',
        forall|m: int| k <= m < close_brace(s, k) ==> s[m] != '}',
    decreases s.len() - k,
{
    if k < s.len() && s[k] != '}' {
        lemma_close_brace(s, k + 1);
    }
}

/// The placeholder keys of `sql`, in order of appearance.
pub fn placeholder_keys_of(sql: &str) -> (r: Vec<String>)
    ensures
        r.deep_view() == placeholder_keys(sql@),
{
    let v = chars_of(sql);
    let mut keys: Vec<String> = Vec::new();
    let mut i: usize = 0;
    while i < v.len()
        invariant
            i <= v.len(),
            v@ == sql@,
            keys.deep_view() + keys_from(v@, i as int) == keys_from(v@, 0),
        decreases v.len() - i,
    {
        if v[i] != '{' {
            i = i + 1;
        } else {
            let mut j = i + 1;
            while j < v.len() && v[j] != '}'
                invariant
                    i + 1 <= j <= v.len(),
                    close_brace(v@, i + 1) == close_brace(v@, j as int),
                decreases v.len() - j,
            {
                j = j + 1;
            }
            assert(close_brace(v@, i + 1) == j);
            let ghost before = keys.deep_view();
            let ghost rest = if j < v.len() { keys_from(v@, j + 1) } else { Seq::<Seq<char>>::empty() };
            if j > i + 1 {
                let key = string_from_range(&v, i + 1, j);
                keys.push(key);
                assert(keys.deep_view() =~= before.push(v@.subrange(i + 1, j as int)));
                assert(keys.deep_view() + rest =~= before + (seq![v@.subrange(i + 1, j as int)] + rest));
            }
            if j < v.len() {
                i = j + 1;
            } else {
                i = v.len();
                assert(keys.deep_view() + keys_from(v@, i as int) =~= keys.deep_view() + rest);
            }
        }
    }
    assert(keys.deep_view() + keys_from(v@, i as int) =~= keys.deep_view());
    keys
}

/// `sql` with the placeholder of each entry of `params` replaced by its
/// value, entry by entry in order.
pub fn substitute_params(sql: &str, params: &ParamMap) -> (r: Vec<char>)
    ensures
        r@ == apply_params(sql@, params@),
{
    let mut out = chars_of(sql);
    let mut i: usize = 0;
    let n = params.len();
    while i < n
        invariant
            i <= n == params@.len(),
            out@ == apply_params(sql@, params@.take(i as int)),
        decreases n - i,
    {
        let (k, val) = params.entry(i);
        let mut pat: Vec<char> = Vec::new();
        pat.push('{');
        let kc = chars_of(k.as_str());
        let mut m: usize = 0;
        while m < kc.len()
            invariant
                m <= kc.len(),
                pat@ == seq!['{'] + kc@.take(m as int),
            decreases kc.len() - m,
        {
            pat.push(kc[m]);
            m = m + 1;
            assert(pat@ =~= seq!['{'] + kc@.take(m as int));
        }
        pat.push('}');
        assert(kc@.take(kc.len() as int) =~= kc@);
        assert(pat@ =~= placeholder(k@));
        let vc = chars_of(val.as_str());
        out = replace_exec(&out, &pat, &vc);
        assert(params@.take(i + 1).drop_last() =~= params@.take(i as int));
        i = i + 1;
    }
    assert(params@.take(n as int) =~= params@);
    out
}

impl QueryTemplate {
    /// The placeholder keys of the SQL (e.g. `{employee_id}` gives `employee_id`).
    pub fn param_keys(&self) -> (r: Vec<String>)
        ensures
            r.deep_view() == placeholder_keys(self.sql@),
    {
        placeholder_keys_of(self.sql.as_str())
    }

    /// The SQL with every placeholder that `params` names replaced by its
    /// value, or the list of missing parameters when a `{` is left.
    pub fn render(&self, params: &ParamMap) -> (r: Result<String, String>)
        ensures
            match r {
                Ok(s) => render_result(self.sql@, params@) == Ok::<Seq<char>, Seq<char>>(s@),
                Err(e) => render_result(self.sql@, params@) == Err::<Seq<char>, Seq<char>>(e@),
            },
    {
        let sql = substitute_params(self.sql.as_str(), params);
        if contains_char(&sql, '{') {
            let keys = self.param_keys();
            let mut missing: Vec<String> = Vec::new();
            let mut j: usize = 0;
            while j < keys.len()
                invariant
                    j <= keys.len(),
                    keys.deep_view() == placeholder_keys(self.sql@),
                    missing.deep_view() == missing_keys(keys.deep_view().take(j as int), params@),
                decreases keys.len() - j,
            {
                assert(keys.deep_view().take(j + 1).drop_last() =~= keys.deep_view().take(j as int));
                assert(keys.deep_view()[j as int] == keys[j as int]@);
                if !params.contains_key(&keys[j]) {
                    let ghost before = missing.deep_view();
                    missing.push(keys[j].clone());
                    assert(missing.deep_view() =~= before.push(keys[j as int]@));
                }
                j = j + 1;
            }
            assert(keys.deep_view().take(keys.len() as int) =~= keys.deep_view());
            let mut msg = String::new();
            push_all(&mut msg, "Missing parameters: ");
            let list = join_strings(&missing, ", ");
            push_all(&mut msg, list.as_str());
            assert(msg@ =~= "Missing parameters: "@ + join(
                missing_keys(placeholder_keys(self.sql@), params@),
                ", "@,
            ));
            Err(msg)
        } else {
            Ok(string_from_chars(&sql))
        }
    }
}


/// A template of the "Built-in" group.
fn builtin_template(id: &str, name: &str, description: &str, sql: &str) -> (r: QueryTemplate)
    ensures
        r@ == (TemplateView {
            id: id@,
            group: Some("Built-in"@),
            name: name@,
            description: description@,
            sql: sql@,
        }),
{
    QueryTemplate {
        id: String::from_str(id),
        group: Some(String::from_str("Built-in")),
        name: String::from_str(name),
        description: String::from_str(description),
        sql: String::from_str(sql),
    }
}

/// The templates that ship with the program.
pub open spec fn builtin_templates() -> Seq<TemplateView> {
    seq![
        TemplateView {
            id: "travel_requests_by_employee"@,
            group: Some("Built-in"@),
            name: "Travel Requests by Employee"@,
            description: "All travel requests for a given employee (PERNR)"@,
            sql: "SELECT * FROM PTRV_HEAD WHERE PERNR = '{employee_id}'"@,
        },
        TemplateView {
            id: "travel_expenses_by_date"@,
            group: Some("Built-in"@),
            name: "Travel Expenses by Date Range"@,
            description: "Expenses for a request within a date range"@,
            sql: "SELECT * FROM PTRV_PERIO WHERE REINR = '{request_id}' AND BUDAT BETWEEN '{start_date}' AND '{end_date}'"@,
        },
        TemplateView {
            id: "open_travel_requests"@,
            group: Some("Built-in"@),
            name: "Open Travel Requests"@,
            description: "All travel requests with open/pending status"@,
            sql: "SELECT * FROM PTRV_HEAD WHERE REINR LIKE '{prefix}%' AND STATV = '10'"@,
        },
    ]
}

/// The views of a list of templates.
pub open spec fn template_views(ts: Seq<QueryTemplate>) -> Seq<TemplateView> {
    ts.map_values(|t: QueryTemplate| t@)
}

impl QueryTemplate {
    /// The templates that ship with the program.
    pub fn builtin() -> (r: Vec<QueryTemplate>)
        ensures
            template_views(r@) == builtin_templates(),
    {
        let mut r: Vec<QueryTemplate> = Vec::new();
        r.push(
            builtin_template(
                "travel_requests_by_employee",
                "Travel Requests by Employee",
                "All travel requests for a given employee (PERNR)",
                "SELECT * FROM PTRV_HEAD WHERE PERNR = '{employee_id}'",
            ),
        );
        r.push(
            builtin_template(
                "travel_expenses_by_date",
                "Travel Expenses by Date Range",
                "Expenses for a request within a date range",
                "SELECT * FROM PTRV_PERIO WHERE REINR = '{request_id}' AND BUDAT BETWEEN '{start_date}' AND '{end_date}'",
            ),
        );
        r.push(
            builtin_template(
                "open_travel_requests",
                "Open Travel Requests",
                "All travel requests with open/pending status",
                "SELECT * FROM PTRV_HEAD WHERE REINR LIKE '{prefix}%' AND STATV = '10'",
            ),
        );
        assert(template_views(r@) =~= builtin_templates());
        r
    }
}

// ── Groups ───────────────────────────────────────────────────────────────────

/// The group a template is listed under: its own, or "Other".
pub open spec fn group_of(t: TemplateView) -> Seq<char> {
    match t.group {
        Some(g) => g,
        None => "Other"@,
    }
}

/// The groups of the templates, each once, in the order first seen.
pub open spec fn groups_seen(ts: Seq<TemplateView>) -> Seq<Seq<char>>
    decreases ts.len(),
{
    if ts.len() == 0 {
        Seq::empty()
    } else {
        push_new(groups_seen(ts.drop_last()), group_of(ts.last()))
    }
}

/// The first position at or after `k` of `x` in `list`.
pub open spec fn position_from(list: Seq<Seq<char>>, x: Seq<char>, k: int) -> Option<int>
    decreases list.len() - k,
{
    if k < 0 || k >= list.len() {
        None
    } else if list[k] == x {
        Some(k)
    } else {
        position_from(list, x, k + 1)
    }
}

/// The group that always comes last.
pub open spec fn own_group() -> Seq<char> {
    "My Templates"@
}

/// The groups in the order the template tree shows them: as first seen,
/// but "My Templates" last.
pub open spec fn tree_groups(ts: Seq<TemplateView>) -> Seq<Seq<char>> {
    let g = groups_seen(ts);
    match position_from(g, own_group(), 0) {
        Some(p) => g.remove(p).push(g[p]),
        None => g,
    }
}

/// The group of a template, as it is listed.
pub fn group_name(t: &QueryTemplate) -> (r: String)
    ensures
        r@ == group_of(t@),
{
    match &t.group {
        Some(g) => g.clone(),
        None => String::from_str("Other"),
    }
}

/// The groups of the template tree: each once, in the order first seen,
/// with "My Templates" last.
pub fn template_groups(templates: &Vec<QueryTemplate>) -> (r: Vec<String>)
    ensures
        r.deep_view() == tree_groups(template_views(templates@)),
{
    let ghost ts = template_views(templates@);
    let mut seen: Vec<String> = Vec::new();
    let mut i: usize = 0;
    while i < templates.len()
        invariant
            i <= templates.len(),
            ts == template_views(templates@),
            seen.deep_view() == groups_seen(ts.take(i as int)),
        decreases templates.len() - i,
    {
        assert(ts.take(i + 1).drop_last() =~= ts.take(i as int));
        assert(ts.take(i + 1).last() == templates[i as int]@);
        let g = group_name(&templates[i]);
        push_unique(&mut seen, g);
        i = i + 1;
    }
    assert(ts.take(i as int) =~= ts);
    let own = String::from_str("My Templates");
    let mut p: usize = 0;
    while p < seen.len()
        invariant
            p <= seen.len(),
            own@ == own_group(),
            ts == template_views(templates@),
            seen.deep_view() == groups_seen(ts),
            position_from(seen.deep_view(), own_group(), 0) == position_from(
                seen.deep_view(),
                own_group(),
                p as int,
            ),
        decreases seen.len() - p,
    {
        assert(seen.deep_view()[p as int] == seen[p as int]@);
        if seen[p] == own {
            let ghost before = seen.deep_view();
            let g = seen.remove(p);
            seen.push(g);
            assert(seen.deep_view() =~= before.remove(p as int).push(before[p as int]));
            return seen;
        }
        p = p + 1;
    }
    seen
}

/// Whether a template is listed under `group`.
pub fn in_group(t: &QueryTemplate, group: &str) -> (r: bool)
    ensures
        r == (group_of(t@) == group@),
{
    match &t.group {
        Some(g) => str_eq(g.as_str(), group),
        None => str_eq("Other", group),
    }
}

/// Where `position_from` stops.
proof fn lemma_position_from(list: Seq<Seq<char>>, x: Seq<char>, k: int)
    requires
        0 <= k,
    ensures
        match position_from(list, x, k) {
            Some(p) => k <= p < list.len() && list[p] == x,
            None => forall|j: int| k <= j < list.len() ==> list[j] != x,
        },
    decreases list.len() - k,
{
    if k < list.len() && list[k] != x {
        lemma_position_from(list, x, k + 1);
    }
}

/// Every template's group is among the groups seen, and only those are.
proof fn lemma_groups_seen(ts: Seq<TemplateView>)
    ensures
        forall|g: Seq<char>| #[trigger] groups_seen(ts).contains(g) <==> exists|i: int|
            0 <= i < ts.len() && group_of(#[trigger] ts[i]) == g,
    decreases ts.len(),
{
    if ts.len() > 0 {
        let prev = ts.drop_last();
        lemma_groups_seen(prev);
        let gs = groups_seen(prev);
        let last = group_of(ts.last());
        assert forall|g: Seq<char>| #[trigger] groups_seen(ts).contains(g) <==> exists|i: int|
            0 <= i < ts.len() && group_of(#[trigger] ts[i]) == g by {
            if groups_seen(ts).contains(g) {
                if g == last {
                    assert(group_of(ts[ts.len() - 1]) == g);
                } else {
                    if !gs.contains(last) {
                        let k = choose|k: int| 0 <= k < gs.push(last).len() && gs.push(last)[k] == g;
                        assert(gs[k] == g);
                    }
                    assert(gs.contains(g));
                    let i = choose|i: int| 0 <= i < prev.len() && group_of(#[trigger] prev[i]) == g;
                    assert(ts[i] == prev[i]);
                }
            }
            if exists|i: int| 0 <= i < ts.len() && group_of(#[trigger] ts[i]) == g {
                let i = choose|i: int| 0 <= i < ts.len() && group_of(#[trigger] ts[i]) == g;
                if i == ts.len() - 1 {
                    if !gs.contains(last) {
                        assert(gs.push(last)[gs.len() as int] == last);
                    }
                } else {
                    assert(prev[i] == ts[i]);
                    assert(gs.contains(g));
                    if !gs.contains(last) {
                        let k = choose|k: int| 0 <= k < gs.len() && gs[k] == g;
                        assert(gs.push(last)[k] == g);
                    }
                }
            }
        }
    }
}

/// The template tree shows the group of every template and no other, and
/// "My Templates", when it is there, comes last.
pub proof fn lemma_tree_groups(ts: Seq<TemplateView>)
    ensures
        forall|g: Seq<char>| #[trigger] tree_groups(ts).contains(g) <==> exists|i: int|
            0 <= i < ts.len() && group_of(#[trigger] ts[i]) == g,
        tree_groups(ts).contains(own_group()) ==> tree_groups(ts).last() == own_group(),
{
    lemma_groups_seen(ts);
    let g = groups_seen(ts);
    lemma_position_from(g, own_group(), 0);
    match position_from(g, own_group(), 0) {
        Some(p) => {
            let t = g.remove(p).push(g[p]);
            assert forall|x: Seq<char>| #[trigger] t.contains(x) <==> g.contains(x) by {
                if t.contains(x) {
                    let k = choose|k: int| 0 <= k < t.len() && t[k] == x;
                    if k == t.len() - 1 {
                        assert(g[p] == x);
                    } else if k < p {
                        assert(g[k] == x);
                    } else {
                        assert(g[k + 1] == x);
                    }
                }
                if g.contains(x) {
                    let k = choose|k: int| 0 <= k < g.len() && g[k] == x;
                    if k == p {
                        assert(t[t.len() - 1] == x);
                    } else if k < p {
                        assert(t[k] == x);
                    } else {
                        assert(t[k - 1] == x);
                    }
                }
            }
        },
        None => {
            if g.contains(own_group()) {
                let k = choose|k: int| 0 <= k < g.len() && g[k] == own_group();
                assert(g[k] != own_group());
            }
        },
    }
}

// ── Laws of rendering ────────────────────────────────────────────────────────

/// A rendered query holds no `{`: rendering succeeds only when no placeholder
/// is left.
pub proof fn lemma_render_ok_has_no_brace(sql: Seq<char>, entries: Seq<(Seq<char>, Seq<char>)>)
    ensures
        match render_result(sql, entries) {
            Ok(s) => !has_char(s, '{'),
            Err(_) => true,
        },
{
}

/// Text without braces.
pub open spec fn brace_free(s: Seq<char>) -> bool {
    !has_char(s, '{') && !has_char(s, '}')
}

/// Replacing a pattern that starts with `{` leaves a stretch without `{` as it is.
proof fn lemma_replace_keeps_prefix(s: Seq<char>, p: Seq<char>, r: Seq<char>, n: int)
    requires
        p.len() > 0,
        p[0] == '{',
        0 <= n <= s.len(),
        forall|i: int| 0 <= i < n ==> s[i] != '{',
    ensures
        replace_all(s, p, r) == s.take(n) + replace_all(s.skip(n), p, r),
    decreases n,
{
    if n == 0 {
        assert(s.skip(0) =~= s);
        assert(s.take(0) + replace_all(s, p, r) =~= replace_all(s, p, r));
    } else {
        if matches_at(s, p, 0) {
            assert(s.subrange(0, p.len() as int)[0] == s[0]);
        }
        let d = s.drop_first();
        assert forall|i: int| 0 <= i < n - 1 implies d[i] != '{' by {
            assert(d[i] == s[i + 1]);
        }
        lemma_replace_keeps_prefix(d, p, r, n - 1);
        assert(d.skip(n - 1) =~= s.skip(n));
        assert(seq![s[0]] + (d.take(n - 1) + replace_all(s.skip(n), p, r)) =~= s.take(n) + replace_all(
            s.skip(n),
            p,
            r,
        ));
    }
}

/// A match stays a match with text put before it.
proof fn lemma_match_after(x: Seq<char>, y: Seq<char>, b: Seq<char>, i: int)
    requires
        matches_at(y, b, i),
    ensures
        matches_at(x + y, b, x.len() + i),
{
    assert((x + y).subrange(x.len() + i, x.len() + i + b.len()) =~= y.subrange(i, i + b.len()));
}

/// Text with a match of `b` at `i` is what comes before, `b`, and what comes after.
proof fn lemma_match_split(s: Seq<char>, b: Seq<char>, i: int)
    requires
        matches_at(s, b, i),
    ensures
        s == s.take(i) + b + s.skip(i + b.len()),
{
    assert(s.subrange(i, i + b.len()) == b);
    assert(s =~= s.take(i) + b + s.skip(i + b.len()));
}

/// Replacing the placeholder of another brace-free key leaves the
/// placeholder `{k}` standing.
proof fn lemma_replace_keeps_block(
    u: Seq<char>,
    k: Seq<char>,
    v: Seq<char>,
    x: Seq<char>,
    r: Seq<char>,
)
    requires
        brace_free(k),
        brace_free(x),
        x != k,
    ensures
        exists|i: int| #[trigger] matches_at(replace_all(u + placeholder(k) + v, placeholder(x), r), placeholder(k), i),
    decreases u.len(),
{
    let b = placeholder(k);
    let p = placeholder(x);
    let s = u + b + v;
    let lk = k.len() as int;
    let lx = x.len() as int;
    if u.len() == 0 {
        assert(s =~= b + v);
        if matches_at(s, p, 0) {
            assert forall|i: int| 0 <= i < p.len() implies s[i] == p[i] by {
                assert(s.subrange(0, p.len() as int)[i] == s[i]);
            }
            if lx < lk {
                assert(s[1 + lx] == p[1 + lx]);
                assert(s[1 + lx] == k[lx]);
                assert(has_char(k, '}'));
            } else if lx > lk {
                assert(s[1 + lk] == p[1 + lk]);
                assert(p[1 + lk] == x[lk]);
                assert(has_char(x, '}'));
            } else {
                assert forall|i: int| 0 <= i < lx implies x[i] == k[i] by {
                    assert(s[1 + i] == p[1 + i]);
                }
                assert(x =~= k);
            }
        }
        let d = s.drop_first();
        assert(d =~= k + seq!['}'] + v);
        assert forall|i: int| 0 <= i < lk + 1 implies d[i] != '{' by {
            if i < lk {
                assert(d[i] == k[i]);
                if d[i] == '{' {
                    assert(has_char(k, '{'));
                }
            }
        }
        lemma_replace_keeps_prefix(d, p, r, lk + 1);
        assert(d.take(lk + 1) =~= k + seq!['}']);
        assert(d.skip(lk + 1) =~= v);
        assert(replace_all(s, p, r) == seq![s[0]] + replace_all(d, p, r));
        let out = replace_all(s, p, r);
        assert(out =~= b + replace_all(v, p, r));
        assert(out.subrange(0, b.len() as int) =~= b);
        assert(matches_at(out, b, 0));
    } else if matches_at(s, p, 0) {
        let lu = u.len() as int;
        if lu < p.len() {
            assert(s.subrange(0, p.len() as int)[lu] == s[lu]);
            assert(s[lu] == '{');
            if lu < p.len() - 1 {
                assert(p[lu] == x[lu - 1]);
                assert(has_char(x, '{'));
            }
        }
        let t = s.skip(p.len() as int);
        assert(t =~= u.skip(p.len() as int) + b + v);
        lemma_replace_keeps_block(u.skip(p.len() as int), k, v, x, r);
        let i = choose|i: int| #[trigger] matches_at(replace_all(t, p, r), b, i);
        lemma_match_after(r, replace_all(t, p, r), b, i);
        assert(replace_all(s, p, r) == r + replace_all(t, p, r));
    } else {
        let d = s.drop_first();
        assert(d =~= u.drop_first() + b + v);
        lemma_replace_keeps_block(u.drop_first(), k, v, x, r);
        let i = choose|i: int| #[trigger] matches_at(replace_all(d, p, r), b, i);
        lemma_match_after(seq![s[0]], replace_all(d, p, r), b, i);
        assert(replace_all(s, p, r) == seq![s[0]] + replace_all(d, p, r));
    }
}

/// Filling in other brace-free keys leaves the placeholder `{k}` standing.
proof fn lemma_params_keep_block(
    sql: Seq<char>,
    k: Seq<char>,
    entries: Seq<(Seq<char>, Seq<char>)>,
)
    requires
        brace_free(k),
        exists|i: int| #[trigger] matches_at(sql, placeholder(k), i),
        forall|e: int| 0 <= e < entries.len() ==> brace_free(#[trigger] entries[e].0),
        !has_key(entries, k),
    ensures
        exists|i: int| #[trigger] matches_at(apply_params(sql, entries), placeholder(k), i),
    decreases entries.len(),
{
    if entries.len() > 0 {
        let init = entries.drop_last();
        assert forall|e: int| 0 <= e < init.len() implies brace_free(#[trigger] init[e].0) by {
            assert(init[e] == entries[e]);
        }
        assert(!has_key(init, k)) by {
            if has_key(init, k) {
                let i = choose|i: int| 0 <= i < init.len() && (#[trigger] init[i]).0 == k;
                assert(entries[i] == init[i]);
            }
        }
        lemma_params_keep_block(sql, k, init);
        let s0 = apply_params(sql, init);
        let i = choose|i: int| #[trigger] matches_at(s0, placeholder(k), i);
        lemma_match_split(s0, placeholder(k), i);
        let last = entries.last();
        assert(brace_free(entries[entries.len() - 1].0));
        if last.0 == k {
            assert(entries[entries.len() - 1].0 == k);
        }
        let u = s0.take(i);
        let v = s0.skip(i + placeholder(k).len());
        lemma_replace_keeps_block(u, k, v, last.0, last.1);
        assert(apply_params(sql, entries) == replace_all(s0, placeholder(last.0), last.1));
        let j = choose|j: int| #[trigger] matches_at(replace_all(u + placeholder(k) + v, placeholder(last.0), last.1), placeholder(k), j);
        assert(matches_at(apply_params(sql, entries), placeholder(k), j));
    } else {
        assert(apply_params(sql, entries) == sql);
    }
}

/// A key of the list is among the keys without a value when no entry names it.
proof fn lemma_missing_has(keys: Seq<Seq<char>>, entries: Seq<(Seq<char>, Seq<char>)>, k: Seq<char>)
    requires
        keys.contains(k),
        !has_key(entries, k),
    ensures
        missing_keys(keys, entries).contains(k),
    decreases keys.len(),
{
    if keys.last() == k {
        assert(missing_keys(keys, entries) == missing_keys(keys.drop_last(), entries).push(k));
        assert(missing_keys(keys, entries)[missing_keys(keys.drop_last(), entries).len() as int] == k);
    } else {
        let i = choose|i: int| 0 <= i < keys.len() && keys[i] == k;
        assert(keys.drop_last()[i] == k);
        lemma_missing_has(keys.drop_last(), entries, k);
        let m = missing_keys(keys.drop_last(), entries);
        let j = choose|j: int| 0 <= j < m.len() && m[j] == k;
        if !has_key(entries, keys.last()) {
            assert(m.push(keys.last())[j] == k);
        }
    }
}

/// When the template holds the placeholder `{k}` of one of its keys and no
/// parameter has a value for `k`, rendering fails and its message lists `k`
/// (for keys without braces).
pub proof fn lemma_render_reports_missing(
    sql: Seq<char>,
    entries: Seq<(Seq<char>, Seq<char>)>,
    k: Seq<char>,
)
    requires
        exists|i: int| matches_at(sql, seq!['{'] + k + seq!['}'], i),
        placeholder_keys(sql).contains(k),
        !has_char(k, '{'),
        !has_char(k, '}'),
        forall|e: int| 0 <= e < entries.len() ==> !has_char(#[trigger] entries[e].0, '{') && !has_char(entries[e].0, '}'),
        !has_key(entries, k),
    ensures
        exists|m: Seq<Seq<char>>|
            m.contains(k) && render_result(sql, entries) == Err::<Seq<char>, Seq<char>>(
                "Missing parameters: "@ + join(m, ", "@),
            ),
{
    let b = placeholder(k);
    let i0 = choose|i: int| matches_at(sql, seq!['{'] + k + seq!['}'], i);
    assert(matches_at(sql, b, i0));
    assert forall|e: int| 0 <= e < entries.len() implies brace_free(#[trigger] entries[e].0) by {}
    lemma_params_keep_block(sql, k, entries);
    let out = apply_params(sql, entries);
    let i = choose|i: int| #[trigger] matches_at(out, b, i);
    assert(out.subrange(i, i + b.len())[0] == out[i]);
    assert(has_char(out, '{'));
    lemma_missing_has(placeholder_keys(sql), entries, k);
}

} // verus!
