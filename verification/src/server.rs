//! Which requests the service answers, and how.

use vstd::prelude::*;
use vstd::string::*;
use crate::text::same_chars;

verus! {

/// What a request is answered with.
#[derive(Debug, Clone, Copy, PartialEq, Eq, Structural)]
pub enum Route {
    /// The page of the batch's records.
    Domains,
    /// Nothing: no such page.
    NotFound,
}

/// The route of a request: the page of records for `GET /domains`, nothing
/// for any other method or path.
pub open spec fn route_of(method: Seq<char>, path: Seq<char>) -> Route {
    if method == "GET"@ && path == "/domains"@ {
        Route::Domains
    } else {
        Route::NotFound
    }
}

/// The status code that a route answers with.
pub open spec fn status_of(route: Route) -> u16 {
    match route {
        Route::Domains => 200,
        Route::NotFound => 404,
    }
}

/// The route of a request with this method and path.
pub fn route(method: &str, path: &str) -> (r: Route)
    ensures
        r == route_of(method@, path@),
{
    if same_chars(method, "GET") && same_chars(path, "/domains") {
        Route::Domains
    } else {
        Route::NotFound
    }
}

/// The status code of a route: 200 for the page, 404 where there is none.
pub fn status(route: Route) -> (code: u16)
    ensures
        code == status_of(route),
{
    match route {
        Route::Domains => 200,
        Route::NotFound => 404,
    }
}

} // verus!
