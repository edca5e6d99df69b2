//! The request methods the server handles.

use vstd::prelude::*;
use crate::error::{ErrorKind, ServerError};
use crate::text::same_text;

verus! {

/// The request methods this server handles.
#[derive(Clone, Copy, Debug, PartialEq, Eq, Structural)]
pub enum Method {
    Get,
    Post,
    Put,
    Delete,
}

/// The name a request line gives the method.
pub open spec fn method_name(m: Method) -> Seq<char> {
    match m {
        Method::Get => seq!['G', 'E', 'T'],
        Method::Post => seq!['P', 'O', 'S', 'T'],
        Method::Put => seq!['P', 'U', 'T'],
        Method::Delete => seq!['D', 'E', 'L', 'E', 'T', 'E'],
    }
}

/// The method whose name is exactly `name`, if any.
pub open spec fn method_named(name: Seq<char>) -> Option<Method> {
    if name == method_name(Method::Get) {
        Some(Method::Get)
    } else if name == method_name(Method::Post) {
        Some(Method::Post)
    } else if name == method_name(Method::Put) {
        Some(Method::Put)
    } else if name == method_name(Method::Delete) {
        Some(Method::Delete)
    } else {
        None
    }
}

impl Method {
    /// Only POST and PUT requests carry a body.
    pub open spec fn spec_has_body(self) -> bool {
        self == Method::Post || self == Method::Put
    }

    pub fn has_body(self) -> (r: bool)
        ensures
            r == self.spec_has_body(),
    {
        match self {
            Method::Post | Method::Put => true,
            _ => false,
        }
    }
}

/// Reads a method name; any name but GET, POST, PUT and DELETE is not implemented.
pub fn method_from_name(name: &[char]) -> (r: Result<Method, ServerError>)
    ensures
        match r {
            Ok(m) => method_named(name@) == Some(m),
            Err(e) => method_named(name@) is None && e.kind == ErrorKind::NotImplemented,
        },
{
    let get = ['G', 'E', 'T'];
    let post = ['P', 'O', 'S', 'T'];
    let put = ['P', 'U', 'T'];
    let delete = ['D', 'E', 'L', 'E', 'T', 'E'];
    assert(get@ == method_name(Method::Get));
    assert(post@ == method_name(Method::Post));
    assert(put@ == method_name(Method::Put));
    assert(delete@ == method_name(Method::Delete));
    if same_text(name, &get) {
        Ok(Method::Get)
    } else if same_text(name, &post) {
        Ok(Method::Post)
    } else if same_text(name, &put) {
        Ok(Method::Put)
    } else if same_text(name, &delete) {
        Ok(Method::Delete)
    } else {
        Err(ServerError::new(ErrorKind::NotImplemented, "Method not supported"))
    }
}

} // verus!
