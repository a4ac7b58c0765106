//! Sizing configuration for a pool and the errors a pool can report.

use vstd::prelude::*;

verus! {

/// Immutable sizing configuration: how many connections the pool may hold at
/// most, how many it keeps established eagerly, and whether establishment is
/// deferred until first demand.
#[derive(Clone, Copy, PartialEq, Eq, Structural, Debug)]
pub struct PoolConfig {
    pub max_connections: u32,
    pub min_connections: u32,
    pub lazy: bool,
}

/// A configuration the pool refuses to be built from.
#[derive(Clone, Copy, PartialEq, Eq, Structural, Debug)]
pub enum ConfigError {
    /// `max_connections` was zero: a pool that can never hold a connection.
    ZeroMax,
    /// `min_connections` exceeded `max_connections`.
    MinExceedsMax,
}

impl PoolConfig {
    /// A configuration is valid when the pool can hold at least one
    /// connection and the eager floor does not exceed the ceiling.
    pub open spec fn valid(self) -> bool {
        &&& 1 <= self.max_connections
        &&& self.min_connections <= self.max_connections
    }

    /// Validates the sizing parameters; an invalid combination is a caller
    /// error, rejected at construction and never tolerated at runtime.
    pub fn new(max_connections: u32, min_connections: u32, lazy: bool) -> (r: Result<
        PoolConfig,
        ConfigError,
    >)
        ensures
            r is Ok <==> (PoolConfig { max_connections, min_connections, lazy }).valid(),
            r is Ok ==> r->Ok_0 == (PoolConfig { max_connections, min_connections, lazy }),
            max_connections == 0 ==> r == Result::<PoolConfig, ConfigError>::Err(
                ConfigError::ZeroMax,
            ),
            max_connections >= 1 && min_connections > max_connections ==> r == Result::<
                PoolConfig,
                ConfigError,
            >::Err(ConfigError::MinExceedsMax),
    {
        if max_connections == 0 {
            Err(ConfigError::ZeroMax)
        } else if min_connections > max_connections {
            Err(ConfigError::MinExceedsMax)
        } else {
            Ok(PoolConfig { max_connections, min_connections, lazy })
        }
    }
}

} // verus!
