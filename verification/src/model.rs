//! The settings of a chat client for a local model server, and what becomes
//! of the outcome of a chat call.

use vstd::prelude::*;
use vstd::std_specs::convert::FromSpecImpl;

verus! {

/// The models preinstalled on the local server.
#[derive(Clone, Copy, Debug)]
pub enum DobbiKovModels {
    Gemma312b,
    Aya8B,
}

impl DobbiKovModels {
    /// The identifier under which the server knows the model.
    pub open spec fn name(self) -> Seq<char> {
        match self {
            DobbiKovModels::Gemma312b => "gemma3:12b-it-qat"@,
            DobbiKovModels::Aya8B => "aya:8b"@,
        }
    }
}

impl From<DobbiKovModels> for String {
    /// The identifier of the model, as a string.
    fn from(value: DobbiKovModels) -> (s: String)
        ensures
            s@ == value.name(),
    {
        match value {
            DobbiKovModels::Gemma312b => String::from_str("gemma3:12b-it-qat"),
            DobbiKovModels::Aya8B => String::from_str("aya:8b"),
        }
    }
}

/// What `from` returns is stated by its own `ensures`, over the view of the
/// string: no specification function can name a `String`.
impl FromSpecImpl<DobbiKovModels> for String {
    open spec fn obeys_from_spec() -> bool {
        false
    }

    open spec fn from_spec(v: DobbiKovModels) -> String {
        arbitrary()
    }
}

/// The address of the model server where none is configured.
pub open spec fn default_endpoint() -> Seq<char> {
    "http://127.0.0.1:11434"@
}

/// The longest answer, in tokens, that a local model is asked for.
pub const OLLAMA_MAX_TOKENS: u32 = 10000;

/// The sampling temperature of every request, in hundredths.
pub const TEMPERATURE_PERCENT: u32 = 70;

/// Model builder struct.
#[derive(Clone)]
pub struct OllamaModelBuilder {
    /// Model name
    model: String,
    /// System prompt (can be empty)
    sys_prompt: String,
}

/// The settings of a client for a model on the local server. Every call with
/// them waits for the whole answer: streaming is off.
#[derive(Debug)]
pub struct OllamaModel {
    /// Address of the model server
    pub base_url: String,
    /// Model name
    pub model: String,
    /// System prompt that is set for the model before each request (can be empty)
    pub sys_prompt: String,
    /// Longest answer, in tokens
    pub max_tokens: u32,
    /// Sampling temperature, in hundredths
    pub temperature_percent: u32,
    /// Whether the answer is streamed
    pub stream: bool,
}

impl OllamaModelBuilder {
    /// The name of the model that the builder holds.
    pub closed spec fn model(&self) -> Seq<char> {
        self.model@
    }

    /// The system prompt that the builder holds.
    pub closed spec fn system_prompt(&self) -> Seq<char> {
        self.sys_prompt@
    }

    /// Initializes the builder with the model that `model` converts into, and
    /// an empty system prompt.
    pub fn new<M: Into<String>>(model: M) -> (b: OllamaModelBuilder)
        ensures
            b.system_prompt() == Seq::<char>::empty(),
            exists|s: String| #[trigger] call_ensures(M::into, (model,), s) && b.model() == s@,
    {
        let model_str: String = model.into();
        OllamaModelBuilder { model: model_str, sys_prompt: String::new() }
    }

    /// Sets the system prompt that is given to the model before each request.
    pub fn set_system_prompt(self, prompt: String) -> (b: OllamaModelBuilder)
        ensures
            b.model() == self.model(),
            b.system_prompt() == prompt@,
    {
        OllamaModelBuilder { model: self.model, sys_prompt: prompt }
    }

    /// The name of the model.
    pub fn model_name(&self) -> (name: &str)
        ensures
            name@ == self.model(),
    {
        self.model.as_str()
    }

    /// The system prompt.
    pub fn prompt(&self) -> (prompt: &str)
        ensures
            prompt@ == self.system_prompt(),
    {
        self.sys_prompt.as_str()
    }

    /// Builds the settings of the client. The server is the one at
    /// `endpoint`, or the default one where no address is configured.
    pub fn build(self, endpoint: Option<String>) -> (m: OllamaModel)
        ensures
            m.base_url@ == match endpoint {
                Some(url) => url@,
                None => default_endpoint(),
            },
            m.model@ == self.model(),
            m.sys_prompt@ == self.system_prompt(),
            m.max_tokens == OLLAMA_MAX_TOKENS,
            m.temperature_percent == TEMPERATURE_PERCENT,
            !m.stream,
    {
        let base_url = match endpoint {
            Some(url) => url,
            None => String::from_str("http://127.0.0.1:11434"),
        };
        OllamaModel {
            base_url,
            model: self.model,
            sys_prompt: self.sys_prompt,
            max_tokens: OLLAMA_MAX_TOKENS,
            temperature_percent: TEMPERATURE_PERCENT,
            stream: false,
        }
    }
}

/// The words that introduce a failure in a reply.
pub open spec fn failure_prefix() -> Seq<char> {
    "Chat error: "@
}

/// The text that stands for the outcome of a chat call: the answer as it
/// came, or the description of the failure behind `failure_prefix`.
pub open spec fn reply_of(outcome: Result<Seq<char>, Seq<char>>) -> Seq<char> {
    match outcome {
        Ok(answer) => answer,
        Err(failure) => failure_prefix() + failure,
    }
}

/// The outcome of a chat call, by its texts.
pub open spec fn outcome_texts(outcome: Result<String, String>) -> Result<Seq<char>, Seq<char>> {
    match outcome {
        Ok(answer) => Ok(answer@),
        Err(failure) => Err(failure@),
    }
}

impl OllamaModel {
    /// The instruction that goes in front of every request: the system
    /// prompt, where it is not empty.
    pub fn system_instruction(&self) -> (instruction: Option<&str>)
        ensures
            self.sys_prompt@.len() == 0 ==> instruction is None,
            self.sys_prompt@.len() > 0 ==> (instruction matches Some(text) && text@
                == self.sys_prompt@),
    {
        if self.sys_prompt.as_str().is_empty() {
            None
        } else {
            Some(self.sys_prompt.as_str())
        }
    }

    /// Turns the outcome of a chat call into the text that the caller gets:
    /// an answer comes through unchanged, a failure as a message in words.
    pub fn reply_text(outcome: Result<String, String>) -> (text: String)
        ensures
            text@ == reply_of(outcome_texts(outcome)),
    {
        match outcome {
            Ok(answer) => answer,
            Err(failure) => String::from_str("Chat error: ").concat(failure.as_str()),
        }
    }
}

} // verus!
