//! Prompt records as the local prompt database stores them.

use vstd::prelude::*;

use crate::apply::{generate_short_hash, short_hash};
use crate::transcript::AiTranscript;
use crate::working_log::Checkpoint;

verus! {

/// One prompt as the database stores it.
#[derive(Debug, Clone)]
pub struct PromptDbRecord {
    /// Short hash of the agent session.
    pub id: String,
    /// Working directory of the repository.
    pub workdir: Option<String>,
    pub tool: String,
    pub model: String,
    /// The agent's own session id.
    pub external_thread_id: String,
    pub messages: AiTranscript,
    pub commit_sha: Option<String>,
    pub created_at: i64,
    pub updated_at: i64,
    pub human_author: Option<String>,
    pub total_additions: Option<u32>,
    pub total_deletions: Option<u32>,
    pub accepted_lines: Option<u32>,
    pub overridden_lines: Option<u32>,
}

impl PromptDbRecord {
    /// The record of an AI checkpoint, given the lines it added and deleted: `None` for a
    /// checkpoint without an agent or a transcript. Both time stamps are the checkpoint's,
    /// the human author is the checkpoint's author, and the accepted and overridden line
    /// counts are left open.
    pub fn from_checkpoint(
        checkpoint: &Checkpoint,
        workdir: Option<String>,
        commit_sha: Option<String>,
        additions: u32,
        deletions: u32,
    ) -> (r: Option<PromptDbRecord>)
        ensures
            r is Some <==> (checkpoint.agent_id is Some && checkpoint.transcript is Some),
            r matches Some(rec) ==> {
                let a = checkpoint.agent_id->Some_0;
                &&& rec.id@ == short_hash(a.id@, a.tool@)
                &&& crate::transcript::opt_view(rec.workdir) == crate::transcript::opt_view(workdir)
                &&& rec.tool@ == a.tool@
                &&& rec.model@ == a.model@
                &&& rec.external_thread_id@ == a.id@
                &&& rec.messages@ == (checkpoint.transcript->Some_0)@
                &&& crate::transcript::opt_view(rec.commit_sha) == crate::transcript::opt_view(commit_sha)
                &&& rec.created_at == checkpoint.timestamp as i64
                &&& rec.updated_at == checkpoint.timestamp as i64
                &&& crate::transcript::opt_view(rec.human_author) == Some(checkpoint.author@)
                &&& rec.total_additions == Some(additions)
                &&& rec.total_deletions == Some(deletions)
                &&& rec.accepted_lines is None
                &&& rec.overridden_lines is None
            },
    {
        let agent_id = match &checkpoint.agent_id {
            Some(a) => a,
            None => return None,
        };
        let transcript = match &checkpoint.transcript {
            Some(t) => t,
            None => return None,
        };
        let id = generate_short_hash(agent_id.id.as_str(), agent_id.tool.as_str());
        Some(
            PromptDbRecord {
                id,
                workdir,
                tool: agent_id.tool.clone(),
                model: agent_id.model.clone(),
                external_thread_id: agent_id.id.clone(),
                messages: transcript.duplicate(),
                commit_sha,
                created_at: checkpoint.timestamp as i64,
                updated_at: checkpoint.timestamp as i64,
                human_author: Some(checkpoint.author.clone()),
                total_additions: Some(additions),
                total_deletions: Some(deletions),
                accepted_lines: None,
                overridden_lines: None,
            },
        )
    }
}

} // verus!
