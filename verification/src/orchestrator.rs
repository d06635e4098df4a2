//! The orchestrator service's answers, apart from their transport.
use vstd::prelude::*;

verus! {

/// The orchestrator, with the journal database it works on.
#[derive(Debug, Clone)]
pub struct FileFlowOrchestrator {
    pub db_path: String,
}

/// The state a session reports.
#[derive(Debug, Clone)]
pub struct SessionStatus {
    pub status: String,
    pub logs: Vec<String>,
}

impl Default for FileFlowOrchestrator {
    fn default() -> (r: Self)
        ensures
            r.db_path@ == "fileflow.db"@,
    {
        FileFlowOrchestrator { db_path: "fileflow.db".to_owned() }
    }
}

impl FileFlowOrchestrator {
    /// Starts a pipeline from its YAML text; answers with the session's id.
    pub fn start_pipeline(&self, pipeline_yaml: &String) -> (session_id: String)
        ensures
            session_id@ == "test-session"@,
    {
        "test-session".to_owned()
    }

    /// The status of a session.
    pub fn get_session_status(&self, session_id: &String) -> (r: SessionStatus)
        ensures
            r.status@ == "Running"@,
            r.logs@.len() == 1,
            r.logs@[0]@ == "Initial status check"@,
    {
        let mut logs: Vec<String> = Vec::new();
        logs.push("Initial status check".to_owned());
        SessionStatus { status: "Running".to_owned(), logs }
    }

    /// Commits a step of a session; answers whether it succeeded.
    pub fn commit_step(&self, session_id: &String) -> (success: bool)
        ensures
            success,
    {
        true
    }

    /// Rolls a step of a session back; answers whether it succeeded.
    pub fn rollback_step(&self, session_id: &String) -> (success: bool)
        ensures
            success,
    {
        true
    }

    /// Materializes a snapshot; answers with the directory it went to.
    pub fn materialize_snapshot(&self, session_id: &String) -> (path: String)
        ensures
            path@ == "/tmp/materialized"@,
    {
        "/tmp/materialized".to_owned()
    }
}

} // verus!
