//! The request parameter records of the HTTP surface, and the one decision
//! the handlers share: which sort directive a request resolves to.

use vstd::prelude::*;

use crate::sql::{is_valid_sort, valid_sort_spec};
use vstd::string::StringExecFns;

verus! {

/// Parameters of the tag listing endpoint.
pub struct GetTagParams {
    pub f: i32,
    pub r: i32,
    pub sort: Option<String>,
}

/// Parameters of the search endpoint.
pub struct SearchParams {
    pub q: String,
    pub sort: Option<String>,
}

/// Parameters of the single-book endpoint.
pub struct BookInfoParams {
    pub id: i32,
    pub sort: Option<String>,
}

/// Parameters of the books-by-tag endpoint.
pub struct GetBookListFromTagParams {
    pub f: i32,
    pub r: i32,
    pub id: i32,
    pub sort: Option<String>,
}

/// Parameters of the book insertion endpoint.
pub struct AddBookParams {
    pub title: String,
    pub author: String,
    pub tagid: String,
    pub imgp: String,
    pub year: String,
    pub desc: String,
}

/// Parameters of the tag insertion endpoint.
pub struct AddTagParams {
    pub name: String,
    pub imgp: String,
}

/// Parameters of the book deletion endpoint.
pub struct DelBookParams {
    pub id: i32,
}

/// Parameters of the tag deletion endpoint.
pub struct DelTagParams {
    pub id: i32,
}

/// The sort directive a request resolves to: the given one when it is valid,
/// `ASC` otherwise, and `ASC` when none was given.
pub fn resolve_sort(sort: &Option<String>) -> (m: String)
    ensures
        (*sort) matches Option::Some(s) ==> m@ == (if valid_sort_spec(s@) {
            s@
        } else {
            "ASC"@
        }),
        (*sort) matches Option::None ==> m@ == "ASC"@,
{
    match sort {
        Option::Some(s) => {
            if is_valid_sort(s.as_str()) {
                s.clone()
            } else {
                String::from_str("ASC")
            }
        },
        Option::None => String::from_str("ASC"),
    }
}

} // verus!
