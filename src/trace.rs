use vstd::prelude::*;

verus! {

/// Relies on std::time::SystemTime::now and its distance from UNIX_EPOCH:
/// the wall-clock time in whole seconds. A clock set before the epoch reads 0,
/// and one beyond the range of `i64` reads `i64::MAX`.
#[verifier::external_body]
pub fn current_timestamp() -> (r: i64)
    ensures
        r >= 0,
{
    match std::time::SystemTime::now().duration_since(std::time::UNIX_EPOCH) {
        Ok(d) => i64::try_from(d.as_secs()).unwrap_or(i64::MAX),
        Err(_) => 0,
    }
}

/// Relies on uuid::Uuid::new_v4 and its `Display`, which writes the
/// hyphenated form: 36 characters.
#[verifier::external_body]
fn fresh_record_id() -> (r: String)
    ensures
        r@.len() == 36,
{
    uuid::Uuid::new_v4().to_string()
}

/// Audit record of one executed action and the unit that authorized it.
#[derive(Debug, Clone)]
pub struct DecisionTrace {
    pub action_name: String,
    pub authority_id: String,
    pub timestamp: i64,
    pub result: String,
    pub id: String,
}

impl DecisionTrace {
    /// A trace with the given time and identifier.
    pub fn stamped(
        action_name: String,
        authority_id: String,
        result: String,
        timestamp: i64,
        id: String,
    ) -> (r: Self)
        ensures
            r.action_name == action_name,
            r.authority_id == authority_id,
            r.result == result,
            r.timestamp == timestamp,
            r.id == id,
    {
        DecisionTrace { action_name, authority_id, timestamp, result, id }
    }

    /// Mints a trace with a fresh identifier, stamped with the current time.
    pub fn new(action_name: String, authority_id: String, result: String) -> (r: Self)
        ensures
            r.action_name == action_name,
            r.authority_id == authority_id,
            r.result == result,
            r.timestamp >= 0,
            r.id@.len() == 36,
    {
        let timestamp = current_timestamp();
        let id = fresh_record_id();
        Self::stamped(action_name, authority_id, result, timestamp, id)
    }
}

/// Audit record of the cost incurred by one consumption.
#[derive(Debug, Clone)]
pub struct LiabilityRecord {
    pub trace_id: String,
    pub authority_id: String,
    pub price: i64,
    pub scope: String,
    pub timestamp: i64,
    pub id: String,
}

impl LiabilityRecord {
    /// A record with the given time and identifier.
    pub fn stamped(
        trace_id: String,
        authority_id: String,
        price: i64,
        scope: String,
        timestamp: i64,
        id: String,
    ) -> (r: Self)
        ensures
            r.trace_id == trace_id,
            r.authority_id == authority_id,
            r.price == price,
            r.scope == scope,
            r.timestamp == timestamp,
            r.id == id,
    {
        LiabilityRecord { trace_id, authority_id, price, scope, timestamp, id }
    }

    /// Mints a record with a fresh identifier, stamped with the current time.
    pub fn new(trace_id: String, authority_id: String, price: i64, scope: String) -> (r: Self)
        ensures
            r.trace_id == trace_id,
            r.authority_id == authority_id,
            r.price == price,
            r.scope == scope,
            r.timestamp >= 0,
            r.id@.len() == 36,
    {
        let timestamp = current_timestamp();
        let id = fresh_record_id();
        Self::stamped(trace_id, authority_id, price, scope, timestamp, id)
    }
}

} // verus!
