use vstd::prelude::*;
use crate::text::{decimal, push_decimal, push_str};

verus! {

/// Every error the library reports.
#[derive(Debug, PartialEq, Eq)]
pub enum GraphError {
    ZeroShardCount,
    ZeroCommunitySize,
    EmptyCommunities,
    ZeroCommunitySizes,
    CommunitySizeMismatch,
    InvalidShardInAssignment,
    CommunitySizeOverflow,
    OutsideCommunityRange(u64),
    SourceUserNotFound(u64),
    TargetUserNotFound(u64),
    ShardNotFound(u64),
    UserNotFound(u64),
    UserAlreadyExists(u64),
    CachingDisabled,
    WarmEntryLimitZero,
    ZeroCacheCapacity,
    ZeroByteCapacity,
    UnevenStartupWindow,
    CachedResultMismatch(u64),
    QueryResultMismatch(u64),
    IoError(String),
}

/// The message that describes `e`.
pub open spec fn error_message(e: GraphError) -> Seq<char> {
    match e {
        GraphError::ZeroShardCount => "Shard count must be greater than zero"@,
        GraphError::ZeroCommunitySize => "Community size must be greater than zero"@,
        GraphError::EmptyCommunities => "At least one community is required"@,
        GraphError::ZeroCommunitySizes => "Community sizes must be greater than zero"@,
        GraphError::CommunitySizeMismatch => "Every community needs exactly one shard assignment"@,
        GraphError::InvalidShardInAssignment => "A community is assigned to a shard that does not exist"@,
        GraphError::CommunitySizeOverflow => "Community sizes add up to too many users"@,
        GraphError::OutsideCommunityRange(id) => "User ID "@ + decimal(id as nat) + " is outside the configured placement"@,
        GraphError::SourceUserNotFound(id) => "Source user "@ + decimal(id as nat) + " does not exist"@,
        GraphError::TargetUserNotFound(id) => "Target user "@ + decimal(id as nat) + " does not exist"@,
        GraphError::ShardNotFound(id) => "No shard holds user "@ + decimal(id as nat),
        GraphError::UserNotFound(id) => "User "@ + decimal(id as nat) + " not found"@,
        GraphError::UserAlreadyExists(id) => "User "@ + decimal(id as nat) + " already exists"@,
        GraphError::CachingDisabled => "Caching is disabled"@,
        GraphError::WarmEntryLimitZero => "Warm entry limit must be greater than zero"@,
        GraphError::ZeroCacheCapacity => "Cache capacity must be greater than zero"@,
        GraphError::ZeroByteCapacity => "Cache byte capacity must be greater than zero"@,
        GraphError::IoError(m) => m@,
        GraphError::UnevenStartupWindow => "Startup window must divide evenly by edges per user"@,
        GraphError::CachedResultMismatch(id) => "Cached query returned incorrect users for source "@ + decimal(id as nat),
        GraphError::QueryResultMismatch(id) => "Correctness mismatch for source user "@ + decimal(id as nat),
    }
}

fn text_with_id(before: &str, id: u64, after: &str) -> (message: String)
    ensures
        message@ == before@ + decimal(id as nat) + after@,
{
    let mut message = String::from_str(before);
    push_decimal(&mut message, id);
    push_str(&mut message, after);
    message
}

fn text_then_id(before: &str, id: u64) -> (message: String)
    ensures
        message@ == before@ + decimal(id as nat),
{
    let mut message = String::from_str(before);
    push_decimal(&mut message, id);
    message
}

impl GraphError {
    /// The message that describes this error, as `to_string` gives it.
    pub fn message(&self) -> (message: String)
        ensures
            message@ == error_message(*self),
    {
        match self {
            GraphError::ZeroShardCount => String::from_str("Shard count must be greater than zero"),
            GraphError::ZeroCommunitySize => String::from_str("Community size must be greater than zero"),
            GraphError::EmptyCommunities => String::from_str("At least one community is required"),
            GraphError::ZeroCommunitySizes => String::from_str("Community sizes must be greater than zero"),
            GraphError::CommunitySizeMismatch => String::from_str("Every community needs exactly one shard assignment"),
            GraphError::InvalidShardInAssignment => String::from_str("A community is assigned to a shard that does not exist"),
            GraphError::CommunitySizeOverflow => String::from_str("Community sizes add up to too many users"),
            GraphError::OutsideCommunityRange(id) => text_with_id("User ID ", *id, " is outside the configured placement"),
            GraphError::SourceUserNotFound(id) => text_with_id("Source user ", *id, " does not exist"),
            GraphError::TargetUserNotFound(id) => text_with_id("Target user ", *id, " does not exist"),
            GraphError::ShardNotFound(id) => text_then_id("No shard holds user ", *id),
            GraphError::UserNotFound(id) => text_with_id("User ", *id, " not found"),
            GraphError::UserAlreadyExists(id) => text_with_id("User ", *id, " already exists"),
            GraphError::CachingDisabled => String::from_str("Caching is disabled"),
            GraphError::WarmEntryLimitZero => String::from_str("Warm entry limit must be greater than zero"),
            GraphError::ZeroCacheCapacity => String::from_str("Cache capacity must be greater than zero"),
            GraphError::ZeroByteCapacity => String::from_str("Cache byte capacity must be greater than zero"),
            GraphError::IoError(m) => m.clone(),
            GraphError::UnevenStartupWindow => String::from_str("Startup window must divide evenly by edges per user"),
            GraphError::CachedResultMismatch(id) => text_then_id("Cached query returned incorrect users for source ", *id),
            GraphError::QueryResultMismatch(id) => text_then_id("Correctness mismatch for source user ", *id),
        }
    }
}

} // verus!
