//! Query expressions over the records of one schema.
use vstd::prelude::*;

use crate::field::{field_wf, Field};
use vstd::utf8::encode_utf8_decode_utf8;

verus! {

#[derive(Clone, Copy, Debug, PartialEq, Eq, Structural)]
pub enum Operator {
    LT,
    LTE,
    EQ,
    GT,
    GTE,
    Contains,
}

/// A comparison of one field with a value.
#[derive(Clone, Debug)]
pub struct SimpleFilter {
    pub field_name: String,
    pub operator: Operator,
    pub value: Field,
}

#[derive(Clone, Debug)]
pub enum FilterExpression {
    Simple(SimpleFilter),
    /// All of the comparisons hold.
    And(Vec<SimpleFilter>),
}

#[derive(Clone, Copy, Debug, PartialEq, Eq, Structural)]
pub enum SortDirection {
    Ascending,
    Descending,
}

#[derive(Clone, Debug)]
pub struct SortOption {
    pub field_name: String,
    pub direction: SortDirection,
}

#[derive(Clone, Debug)]
pub struct QueryExpression {
    pub filter: Option<FilterExpression>,
    pub order_by: Vec<SortOption>,
    pub skip: usize,
    pub limit: Option<usize>,
}

/// Whether every value that the query compares with can be encoded.
pub open spec fn query_values_wf(q: QueryExpression) -> bool {
    filter_values_wf(q.filter)
}

/// Whether every value that the filter compares with can be encoded.
pub open spec fn filter_values_wf(filter: Option<FilterExpression>) -> bool {
    match filter {
        None => true,
        Some(FilterExpression::Simple(f)) => field_wf(f.value@),
        Some(FilterExpression::And(fs)) => forall|i: int| 0 <= i < fs@.len() ==> field_wf((#[trigger] fs@[i]).value@),
    }
}

/// Whether the order that `q` asks for is the order in which the index scan of
/// its filter already yields records: ascending on the one compared field.
pub open spec fn order_follows_index(q: QueryExpression) -> bool {
    q.order_by@.len() == 0 || (q.order_by@.len() == 1 && q.order_by@[0].direction == SortDirection::Ascending
        && match q.filter {
            Some(FilterExpression::Simple(f)) => f.operator != Operator::Contains && f.field_name@ == q.order_by@[0].field_name@,
            _ => false,
        })
}

/// Whether the requested order needs no sorting beyond the index scan.
pub fn order_is_supported(q: &QueryExpression) -> (r: bool)
    ensures
        r == order_follows_index(*q),
{
    if q.order_by.len() == 0 {
        return true;
    }
    if q.order_by.len() != 1 || q.order_by[0].direction != SortDirection::Ascending {
        return false;
    }
    match &q.filter {
        Some(FilterExpression::Simple(f)) => {
            if f.operator == Operator::Contains {
                return false;
            }
            let a = f.field_name.as_str().as_bytes();
            let b = q.order_by[0].field_name.as_str().as_bytes();
            let same = crate::index::bytes_eq(a, b);
            proof {
                encode_utf8_decode_utf8(f.field_name@);
                encode_utf8_decode_utf8(q.order_by@[0].field_name@);
            }
            same
        },
        _ => false,
    }
}

/// The part of `ids` that remains after skipping `skip` and keeping at most `limit`.
pub open spec fn page(ids: Seq<u64>, skip: usize, limit: Option<usize>) -> Seq<u64> {
    let rest = if skip >= ids.len() { Seq::<u64>::empty() } else { ids.subrange(skip as int, ids.len() as int) };
    match limit {
        Some(l) => if l < rest.len() { rest.subrange(0, l as int) } else { rest },
        None => rest,
    }
}

/// Applies `skip`, then `limit`.
pub fn apply_paging(ids: Vec<u64>, skip: usize, limit: Option<usize>) -> (r: Vec<u64>)
    ensures
        r@ == page(ids@, skip, limit),
{
    let mut out: Vec<u64> = Vec::new();
    let mut i: usize = skip;
    while i < ids.len()
        invariant
            skip <= i <= ids@.len() || (i == skip && skip >= ids@.len()),
            out@ == ids@.subrange(skip as int, i as int).take(
                match limit { Some(l) => if l < i - skip { l as int } else { i - skip }, None => i - skip }),
        decreases ids@.len() - i,
    {
        let take = match limit {
            Some(l) => out.len() < l,
            None => true,
        };
        if take {
            out.push(ids[i]);
        }
        assert(ids@.subrange(skip as int, i + 1).take(
            match limit { Some(l) => if l < i + 1 - skip { l as int } else { i + 1 - skip }, None => i + 1 - skip })
            =~= out@);
        i = i + 1;
    }
    proof {
        if skip < ids@.len() {
            assert(ids@.subrange(skip as int, ids@.len() as int).take(
                match limit { Some(l) => if l < ids@.len() - skip { l as int } else { ids@.len() - skip }, None => ids@.len() - skip })
                =~= page(ids@, skip, limit));
        } else {
            assert(out@ =~= page(ids@, skip, limit));
        }
    }
    out
}

} // verus!
