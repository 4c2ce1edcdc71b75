//! Scope resolution: maps an optional workspace id and a global flag to
//! exactly one scope, rejecting contradictory selectors.

use vstd::prelude::*;
use vstd::string::StringExecFns;

use crate::types::{GraphError, GraphScope, ScopeV};

verus! {

/// Resolves caller-supplied selectors to one scope.
///
/// Requesting global together with a workspace id is a caller error. A
/// global request alone yields the global scope. Otherwise the supplied
/// workspace id, or the configured default, names a workspace scope.
pub fn resolve_scope(ws: Option<&str>, global: bool, default_ws: &str) -> (r: Result<
    GraphScope,
    GraphError,
>)
    ensures
        global && ws is Some <==> r == Result::<GraphScope, GraphError>::Err(
            GraphError::ConflictingScope,
        ),
        global && ws is None ==> r == Result::<GraphScope, GraphError>::Ok(GraphScope::Global),
        !global ==> r is Ok && r->Ok_0@ == (match ws {
            Option::Some(w) => ScopeV::Workspace(w@),
            Option::None => ScopeV::Workspace(default_ws@),
        }),
{
    if global {
        if ws.is_some() {
            return Result::Err(GraphError::ConflictingScope);
        }
        return Result::Ok(GraphScope::Global);
    }
    match ws {
        Option::Some(w) => Result::Ok(GraphScope::Workspace(String::from_str(w))),
        Option::None => Result::Ok(GraphScope::Workspace(String::from_str(default_ws))),
    }
}

/// Equality of two scopes, decided on their views.
pub fn scope_eq(a: &GraphScope, b: &GraphScope) -> (r: bool)
    ensures
        r == (a@ == b@),
{
    match (a, b) {
        (GraphScope::Workspace(x), GraphScope::Workspace(y)) => {
            let r = *x == *y;
            proof {
                assert(a@ == ScopeV::Workspace(x@));
                assert(b@ == ScopeV::Workspace(y@));
            }
            r
        },
        (GraphScope::Global, GraphScope::Global) => true,
        (GraphScope::Workspace(x), GraphScope::Global) => {
            proof {
                assert(a@ == ScopeV::Workspace(x@));
                assert(b@ == ScopeV::Global);
            }
            false
        },
        (GraphScope::Global, GraphScope::Workspace(y)) => {
            proof {
                assert(a@ == ScopeV::Global);
                assert(b@ == ScopeV::Workspace(y@));
            }
            false
        },
    }
}

/// A printable label for a scope: the workspace id, or "global".
pub fn scope_label(s: &GraphScope) -> (r: String)
    ensures
        match s@ {
            ScopeV::Workspace(w) => r@ == w,
            ScopeV::Global => r@ == "global"@,
        },
{
    match s {
        GraphScope::Workspace(w) => w.clone(),
        GraphScope::Global => String::from_str("global"),
    }
}

} // verus!
