//! Queries: a subset of GraphQL selection syntax.
//!
//! - Nesting is expressed with `{}` braces.
//! - Field names can be given with or without double quotes.
//! - A field can be aliased: `field as alias`.
//! - A field standing for a collection can carry filters: `skip: n`,
//!   `take: n`, `after: name` and `before: name`.
use crate::mutation::{Segment, SegmentKey};
use vstd::prelude::*;
use vstd::string::StringSliceAdditionalSpecFns;

pub mod parse;
pub mod spec;

use crate::query::spec::{FilterView, QueryErrorView, SelectView};

verus! {

#[derive(Debug, Eq, PartialEq)]
pub struct Query {
    selects: Vec<Select>,
}

#[derive(Debug, Eq, PartialEq)]
pub struct Select {
    name: Segment,
    alias: Option<Segment>,
    filters: Vec<Filter>,
    subselects: Vec<Select>,
}

#[derive(Debug, Clone, Eq, PartialEq)]
pub enum Filter {
    Skip(usize),
    Take(usize),
    After(Segment),
    Before(Segment),
}

#[derive(Debug, Clone, Eq, PartialEq)]
pub enum QueryError {
    /// A byte that the grammar does not allow here, and its position.
    UnexpectedChar(char, usize),
    /// The input ends too early.
    UnexpectedEnd,
    /// A filter keyword that is not known, and the position before it.
    UnknownFilter(String, usize),
}

impl View for Filter {
    type V = FilterView;

    open spec fn view(&self) -> FilterView {
        match self {
            Filter::Skip(n) => FilterView::Skip(*n as nat),
            Filter::Take(n) => FilterView::Take(*n as nat),
            Filter::After(s) => FilterView::After(s@),
            Filter::Before(s) => FilterView::Before(s@),
        }
    }
}

impl View for QueryError {
    type V = QueryErrorView;

    open spec fn view(&self) -> QueryErrorView {
        match self {
            QueryError::UnexpectedChar(c, p) => QueryErrorView::UnexpectedChar(*c, *p as nat),
            QueryError::UnexpectedEnd => QueryErrorView::UnexpectedEnd,
            QueryError::UnknownFilter(k, p) => QueryErrorView::UnknownFilter(k@, *p as nat),
        }
    }
}

pub open spec fn option_view(o: Option<Segment>) -> Option<SegmentKey> {
    match o {
        Some(s) => Some(s@),
        None => None,
    }
}

pub open spec fn filter_views(v: Seq<Filter>) -> Seq<FilterView> {
    v.map_values(|f: Filter| f@)
}

/// The plain value of a selection.
pub closed spec fn select_view(s: Select) -> SelectView
    decreases s, 0nat,
{
    SelectView {
        name: s.name@,
        alias: option_view(s.alias),
        filters: filter_views(s.filters@),
        subselects: select_views(s.subselects@),
    }
}

/// The plain values of selections.
pub open spec fn select_views(v: Seq<Select>) -> Seq<SelectView>
    decreases v, 1nat,
{
    if v.len() == 0 {
        Seq::empty()
    } else {
        seq![select_view(v[0])] + select_views(v.drop_first())
    }
}

impl Query {
    pub fn new(selects: Vec<Select>) -> (r: Query)
        ensures
            r.selects_spec() == selects@,
    {
        Query { selects }
    }

    pub closed spec fn selects_spec(&self) -> Seq<Select> {
        self.selects@
    }

    /// The selections of this query.
    pub fn selects(&self) -> (r: &Vec<Select>)
        ensures
            r@ == self.selects_spec(),
    {
        &self.selects
    }

    /// Parses a query; see `spec::p_query` for the grammar.
    pub fn parse(query: &str) -> (r: Result<Query, QueryError>)
        ensures
            match r {
                Ok(q) => spec::p_query(query.spec_bytes()) == Ok::<Seq<SelectView>, QueryErrorView>(
                    select_views(q.selects_spec()),
                ),
                Err(e) => spec::p_query(query.spec_bytes()) == Err::<Seq<SelectView>, QueryErrorView>(e@),
            },
    {
        parse::parse_query(query)
    }
}

impl Select {
    pub fn new(name: Segment, alias: Option<Segment>, filters: Vec<Filter>, subselects: Vec<Select>) -> (r: Select)
        ensures
            select_view(r) == (SelectView {
                name: name@,
                alias: option_view(alias),
                filters: filter_views(filters@),
                subselects: select_views(subselects@),
            }),
    {
        Select { name, alias, filters, subselects }
    }

    pub fn name(&self) -> (r: &Segment)
        ensures
            r@ == select_view(*self).name,
    {
        &self.name
    }

    pub fn alias(&self) -> (r: &Option<Segment>)
        ensures
            option_view(*r) == select_view(*self).alias,
    {
        &self.alias
    }

    pub fn filters(&self) -> (r: &Vec<Filter>)
        ensures
            filter_views(r@) == select_view(*self).filters,
    {
        &self.filters
    }

    pub fn subselects(&self) -> (r: &Vec<Select>)
        ensures
            select_views(r@) == select_view(*self).subselects,
    {
        &self.subselects
    }
}

} // verus!
