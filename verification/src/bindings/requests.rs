//! What callers ask for: parameters of queries, projections and searches.

use vstd::hash_map::StringHashMap;
use vstd::prelude::*;
use vstd::string::StringExecFns;

use crate::trusted::text::str_eq;
use crate::types::float::FloatBits;
use crate::types::value::Value;

verus! {

/// A query with parameters.
pub struct PyQueryBuilder {
    query: String,
    params: StringHashMap<Value>,
}

/// What is said of a parameter that cannot be taken.
pub open spec fn param_error(name: Seq<char>, reason: Seq<char>) -> Seq<char> {
    "Cannot convert parameter '"@ + name + "' to a Grafeo value: "@ + reason
}

impl PyQueryBuilder {
    /// The text of the query.
    pub closed spec fn text(&self) -> Seq<char> {
        self.query@
    }

    /// The parameters by name.
    pub closed spec fn values(&self) -> Map<Seq<char>, Value> {
        self.params@
    }

    /// A query without parameters.
    #[must_use]
    pub fn create(query: String) -> (r: Self)
        ensures
            r.text() == query@,
            r.values() == Map::<Seq<char>, Value>::empty(),
    {
        Self { query, params: StringHashMap::new() }
    }

    /// Sets a parameter, given its value or why there is none. A parameter that is
    /// set again has its new value.
    pub fn param(&mut self, name: String, value: Result<Value, String>) -> (r: Result<(), String>)
        ensures
            final(self).text() == old(self).text(),
            match value {
                Ok(v) => r is Ok && final(self).values() == old(self).values().insert(name@, v),
                Err(reason) => (r matches Err(e) && e@ == param_error(name@, reason@))
                    && final(self).values() == old(self).values(),
            },
    {
        match value {
            Ok(v) => {
                self.params.insert(name, v);
                Ok(())
            },
            Err(reason) => {
                let mut out: String = String::new();
                out.append("Cannot convert parameter '");
                out.append(name.as_str());
                out.append("' to a Grafeo value: ");
                out.append(reason.as_str());
                assert(out@ =~= param_error(name@, reason@));
                Err(out)
            },
        }
    }

    /// The text of the query.
    #[must_use]
    pub fn query(&self) -> (r: &str)
        ensures
            r@ == self.text(),
    {
        self.query.as_str()
    }

    /// The value of a parameter.
    #[must_use]
    pub fn get_param(&self, name: &str) -> (r: Option<&Value>)
        ensures
            match r {
                Some(v) => self.values().dom().contains(name@) && *v == self.values()[name@],
                None => !self.values().dom().contains(name@),
            },
    {
        self.params.get(name)
    }
}

/// What a projection of a graph shows.
#[derive(Debug)]
pub struct ProjectionSpec {
    /// The labels of the nodes that it shows. It shows all nodes if there are none.
    pub node_labels: Option<Vec<String>>,
    /// The types of the edges that it shows. It shows all edges if there are none.
    pub edge_types: Option<Vec<String>>,
}

/// A list that restricts something: an empty one restricts nothing.
pub open spec fn restriction(list: Option<Vec<String>>) -> Option<Vec<String>> {
    match list {
        Some(l) => if l@.len() > 0 {
            Some(l)
        } else {
            None
        },
        None => None,
    }
}

/// An empty list restricts nothing, as none does, and any other stays as it is.
pub proof fn law_empty_lists_restrict_nothing(list: Vec<String>)
    ensures
        restriction(None) is None,
        list@.len() == 0 ==> restriction(Some(list)) is None,
        list@.len() > 0 ==> restriction(Some(list)) == Some(list),
{
}

/// What is said of a parameter names it, and why it cannot be taken.
pub proof fn law_parameter_errors_name_it(name: Seq<char>, reason: Seq<char>)
    ensures
        param_error(name, reason) == "Cannot convert parameter '"@ + name
            + "' to a Grafeo value: "@ + reason,
{
}

/// A list that restricts something.
fn restrict(list: Option<Vec<String>>) -> (r: Option<Vec<String>>)
    ensures
        r == restriction(list),
{
    match list {
        Some(l) => {
            if l.len() > 0 {
                Some(l)
            } else {
                None
            }
        },
        None => None,
    }
}

/// The projection that lists of labels and types ask for.
#[must_use]
pub fn create_projection(
    node_labels: Option<Vec<String>>,
    edge_types: Option<Vec<String>>,
) -> (r: ProjectionSpec)
    ensures
        r.node_labels == restriction(node_labels),
        r.edge_types == restriction(edge_types),
{
    ProjectionSpec { node_labels: restrict(node_labels), edge_types: restrict(edge_types) }
}

/// The bits of one half.
pub const HALF: u64 = 0x3fe0_0000_0000_0000;

/// How two rankings are put together: `None` is the way of the engine, and weights
/// ask for a weighted sum.
pub open spec fn fusion_weights(
    fusion: Option<Seq<char>>,
    weights: Option<Seq<FloatBits>>,
) -> Option<Seq<FloatBits>> {
    if fusion == Some("weighted"@) {
        match weights {
            Some(w) => Some(w),
            None => Some(seq![FloatBits { bits: HALF }, FloatBits { bits: HALF }]),
        }
    } else {
        None
    }
}

/// Only "weighted" asks for weights: those that are given, and half and half where none
/// are. The bits of a half are those of two to the minus one.
pub proof fn law_only_weighted_has_weights(
    fusion: Option<Seq<char>>,
    weights: Option<Seq<FloatBits>>,
    given: Seq<FloatBits>,
)
    ensures
        fusion_weights(fusion, weights) is Some <==> fusion == Some("weighted"@),
        fusion_weights(Some("weighted"@), Some(given)) == Some(given),
        fusion_weights(Some("weighted"@), None) matches Some(w) && w.len() == 2 && w[0].bits
            == 1022 * 0x0010_0000_0000_0000 && w[1].bits == 1022 * 0x0010_0000_0000_0000,
{
}

/// How two rankings are put together: "weighted" asks for a weighted sum, half and
/// half if no weights are given, and anything else for the way of the engine.
#[must_use]
pub fn fusion_method(fusion: Option<&str>, weights: Option<Vec<FloatBits>>) -> (r: Option<
    Vec<FloatBits>,
>)
    ensures
        (match r {
            Some(w) => Some(w@),
            None => None,
        }) == fusion_weights(
            match fusion {
                Some(s) => Some(s@),
                None => None,
            },
            match weights {
                Some(w) => Some(w@),
                None => None,
            },
        ),
{
    match fusion {
        Some(s) => {
            if str_eq(s, "weighted") {
                match weights {
                    Some(w) => Some(w),
                    None => {
                        let mut w: Vec<FloatBits> = Vec::new();
                        w.push(FloatBits { bits: HALF });
                        w.push(FloatBits { bits: HALF });
                        assert(w@ =~= seq![FloatBits { bits: HALF }, FloatBits { bits: HALF }]);
                        Some(w)
                    },
                }
            } else {
                None
            }
        },
        None => None,
    }
}

} // verus!
