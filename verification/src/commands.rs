//! Generating a query from a template chosen by id.
use vstd::prelude::*;
use crate::params::ParamMap;
use crate::templates::{render_result, template_views, QueryTemplate, TemplateView};
use crate::text::push_all;

verus! {

/// Which template to render, and with which parameter values.
pub struct QueryParams {
    pub template_id: String,
    pub parameters: ParamMap,
}

/// The first position at or after `k` of a template with the given id.
pub open spec fn first_with_id(ts: Seq<TemplateView>, id: Seq<char>, k: int) -> Option<int>
    decreases ts.len() - k,
{
    if k < 0 || k >= ts.len() {
        None
    } else if ts[k].id == id {
        Some(k)
    } else {
        first_with_id(ts, id, k + 1)
    }
}

/// What `generate_query` gives: the first template with the id rendered
/// with the parameters, or a "not found" message.
pub open spec fn generated_query(
    ts: Seq<TemplateView>,
    id: Seq<char>,
    entries: Seq<(Seq<char>, Seq<char>)>,
) -> Result<Seq<char>, Seq<char>> {
    match first_with_id(ts, id, 0) {
        Some(k) => render_result(ts[k].sql, entries),
        None => Err("Template '"@ + id + "' not found"@),
    }
}

/// Finds the template in `templates` and renders it with the parameters.
pub fn generate_query(params: QueryParams, templates: &Vec<QueryTemplate>) -> (r: Result<
    String,
    String,
>)
    ensures
        match r {
            Ok(s) => generated_query(template_views(templates@), params.template_id@, params.parameters@) == Ok::<
                Seq<char>,
                Seq<char>,
            >(s@),
            Err(e) => generated_query(template_views(templates@), params.template_id@, params.parameters@)
                == Err::<Seq<char>, Seq<char>>(e@),
        },
{
    let mut i: usize = 0;
    while i < templates.len()
        invariant
            i <= templates.len(),
            first_with_id(template_views(templates@), params.template_id@, 0) == first_with_id(
                template_views(templates@),
                params.template_id@,
                i as int,
            ),
        decreases templates.len() - i,
    {
        assert(template_views(templates@)[i as int] == templates[i as int]@);
        if templates[i].id == params.template_id {
            return templates[i].render(&params.parameters);
        }
        i = i + 1;
    }
    let mut msg = String::new();
    push_all(&mut msg, "Template '");
    push_all(&mut msg, params.template_id.as_str());
    push_all(&mut msg, "' not found");
    assert(msg@ =~= "Template '"@ + params.template_id@ + "' not found"@);
    Err(msg)
}

} // verus!
