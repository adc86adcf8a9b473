//! Configuration values the library reads.

use vstd::prelude::*;

verus! {

/// An MCP server to connect to.
#[derive(Debug, PartialEq, Eq)]
pub struct McpServerConfig {
    pub name: String,
    pub url: String,
}

impl Clone for McpServerConfig {
    fn clone(&self) -> (r: Self)
        ensures
            r == *self,
    {
        McpServerConfig { name: self.name.clone(), url: self.url.clone() }
    }
}

/// The environment variable that holds the API key unless the
/// configuration names another.
pub fn default_api_key_env() -> (r: String)
    ensures
        r@ == "OPENAI_API_KEY"@,
{
    "OPENAI_API_KEY".to_owned()
}

} // verus!
