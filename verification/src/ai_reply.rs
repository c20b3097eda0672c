use vstd::prelude::*;

verus! {

/// The label of the AI reply window.
pub const AI_REPLY_WINDOW_LABEL: &'static str = "ai_reply";

/// The reply text sent to the AI reply window.
#[derive(Clone, Debug)]
pub struct AiReplyPayload {
    pub text: String,
}

} // verus!
