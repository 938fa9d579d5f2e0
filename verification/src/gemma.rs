//! The settings of a chat client for a model in the cloud, and the request
//! that asks it one question.

use crate::model::TEMPERATURE_PERCENT;
use vstd::prelude::*;

verus! {

/// Why the settings of a client could not be made.
#[derive(Clone, Copy, Debug, PartialEq, Eq, Structural)]
pub enum ConfigError {
    /// The service asks for a credential and none is configured.
    MissingCredential,
}

/// The name of the model that the cloud service runs.
pub open spec fn gemma_model_name() -> Seq<char> {
    "gemma-3-27b-it"@
}

/// The role under which a question is sent.
pub open spec fn user_role() -> Seq<char> {
    "user"@
}

/// The longest answer, in tokens, that the cloud model is asked for.
pub const GEMMA_MAX_TOKENS: u32 = 8512;

/// The settings of a client for the model in the cloud. Every call with them
/// waits for the whole answer: streaming is off.
#[derive(Debug)]
pub struct GemmaModel {
    /// Credential of the service
    pub api_key: String,
    /// Model name
    pub model: String,
    /// System prompt that is set for the model before each request
    pub sys_prompt: String,
    /// Longest answer, in tokens
    pub max_tokens: u32,
    /// Sampling temperature, in hundredths
    pub temperature_percent: u32,
    /// Whether the answer is streamed
    pub stream: bool,
}

/// One question to the cloud service: a single piece of text under one role,
/// for one model.
#[derive(Debug)]
pub struct GemmaRequest {
    /// Model name
    pub model: String,
    /// Role of the sender
    pub role: String,
    /// The question
    pub text: String,
}

/// Builds the settings of a client for the cloud model. The service needs a
/// credential: without one no settings are made, so that no request can be
/// sent.
pub fn build_gemma_model(sys_prompt: String, api_key: Option<String>) -> (r: Result<
    GemmaModel,
    ConfigError,
>)
    ensures
        api_key is None ==> r == Err::<GemmaModel, ConfigError>(ConfigError::MissingCredential),
        api_key matches Some(key) ==> r matches Ok(m) && m.api_key@ == key@ && m.model@
            == gemma_model_name() && m.sys_prompt@ == sys_prompt@ && m.max_tokens
            == GEMMA_MAX_TOKENS && m.temperature_percent == TEMPERATURE_PERCENT && !m.stream,
{
    match api_key {
        None => Err(ConfigError::MissingCredential),
        Some(key) => Ok(
            GemmaModel {
                api_key: key,
                model: String::from_str("gemma-3-27b-it"),
                sys_prompt,
                max_tokens: GEMMA_MAX_TOKENS,
                temperature_percent: TEMPERATURE_PERCENT,
                stream: false,
            },
        ),
    }
}

/// The request that puts `message` to the cloud model as a user.
pub fn gemma_request(message: String) -> (request: GemmaRequest)
    ensures
        request.model@ == gemma_model_name(),
        request.role@ == user_role(),
        request.text@ == message@,
{
    GemmaRequest {
        model: String::from_str("gemma-3-27b-it"),
        role: String::from_str("user"),
        text: message,
    }
}

} // verus!
