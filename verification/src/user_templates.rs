//! Templates the user saved from the builder.
use vstd::prelude::*;
use crate::templates::{QueryTemplate, TemplateView};

verus! {

/// A template the user saved.
#[derive(Debug)]
pub struct UserTemplate {
    pub id: String,
    pub name: String,
    pub description: String,
    pub sql: String,
}

/// The template a saved user template is listed as: in the group "My Templates".
pub open spec fn as_listed(u: UserTemplate) -> TemplateView {
    TemplateView {
        id: u.id@,
        group: Some("My Templates"@),
        name: u.name@,
        description: u.description@,
        sql: u.sql@,
    }
}

impl UserTemplate {
    /// The template this one is listed as, in the group "My Templates".
    pub fn to_query_template(&self) -> (r: QueryTemplate)
        ensures
            r@ == as_listed(*self),
    {
        QueryTemplate {
            id: self.id.clone(),
            group: Some(String::from_str("My Templates")),
            name: self.name.clone(),
            description: self.description.clone(),
            sql: self.sql.clone(),
        }
    }
}

} // verus!
