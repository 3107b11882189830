//! The reference service: echo.

use vstd::prelude::*;

use crate::message::Message;

verus! {

/// The canonical request handler: it returns its input unchanged and never
/// fails. One instance serves one connection.
pub struct EchoService;

impl EchoService {
    /// Produces the response for one request.
    pub fn call(&self, req: Message) -> (resp: Message)
        ensures
            resp == req,
    {
        req
    }
}

} // verus!
