// A JSON reverse proxy's decisions: the recursive key rewrite applied to
// bodies, the routing of inbound requests, the upstream request built from
// them, and the reply handed back to the caller.

pub mod json;
pub mod transform;
pub mod proxy;
pub mod laws;
