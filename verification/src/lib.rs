//! A query builder for travel and expense tables: SQL templates with
//! parameters, a customiser for a template's SELECT, a template builder, and
//! a from-scratch query whose joins are planned over the tables' join graph.
//! `app_state` holds the window's state and what each user action does to it.
pub mod app_state;
pub mod builder_state;
pub mod commands;
pub mod customiser;
pub mod joins;
pub mod lists;
pub mod mailto;
pub mod params;
pub mod schema;
pub mod scratch;
pub mod select_round_trip;
pub mod settings;
pub mod templates;
pub mod text;
pub mod travel_request;
pub mod user_templates;
pub mod utils;
