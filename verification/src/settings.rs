//! User settings for the shared queue: where the event log lives and how to
//! reach it. Reading and writing the settings file is the caller's business;
//! this module owns the values and their defaults.

use vstd::prelude::*;

verus! {

/// Connection settings: the conferencing room URL, the repository and file
/// that hold the shared event log, and the path of the CLI used to reach it.
#[derive(Debug, Clone, PartialEq)]
pub struct Settings {
    pub livekit_url: String,
    pub shared_queue_repo: String,
    pub shared_queue_file: String,
    pub gh_path: String,
}

pub fn default_livekit_url() -> (r: String)
    ensures
        r@ == Seq::<char>::empty(),
{
    String::new()
}

pub fn default_shared_queue_repo() -> (r: String)
    ensures
        r@ == "williammartin/gezellig-queue"@,
{
    String::from_str("williammartin/gezellig-queue")
}

pub fn default_shared_queue_file() -> (r: String)
    ensures
        r@ == "queue.ndjson"@,
{
    String::from_str("queue.ndjson")
}

pub fn default_gh_path() -> (r: String)
    ensures
        r@ == "gh"@,
{
    String::from_str("gh")
}

impl Default for Settings {
    fn default() -> (r: Settings)
        ensures
            r.livekit_url@ == Seq::<char>::empty(),
            r.shared_queue_repo@ == "williammartin/gezellig-queue"@,
            r.shared_queue_file@ == "queue.ndjson"@,
            r.gh_path@ == "gh"@,
    {
        Settings {
            livekit_url: default_livekit_url(),
            shared_queue_repo: default_shared_queue_repo(),
            shared_queue_file: default_shared_queue_file(),
            gh_path: default_gh_path(),
        }
    }
}

} // verus!
