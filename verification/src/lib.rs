pub mod text;
pub mod word_diff;
pub mod capture;
pub mod history;
pub mod http_header;
pub mod llm;
pub mod tts;
pub mod json;
pub mod claude_code;
pub mod ai_reply;
