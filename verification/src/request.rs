//! What a client asks of the network, and the models that answer.
use crate::text::{byte_len, decimal_text};
use vstd::prelude::*;

verus! {

/// Maximum allowed prompt size in bytes (128 KB).
pub const MAX_PROMPT_BYTES: usize = 131_072;

/// Maximum allowed `max_tokens` value.
pub const MAX_TOKENS_LIMIT: usize = 8192;

/// Maximum allowed temperature, 2.0, as the bits of a single-precision number.
pub const MAX_TEMPERATURE: u32 = 0x4000_0000;

/// Maximum model name length in characters.
pub const MAX_MODEL_NAME_LEN: usize = 256;

/// Maximum request ID length in characters.
pub const MAX_REQUEST_ID_LEN: usize = 128;

/// The bit of the sign of a single-precision number.
pub const SINGLE_SIGN_BIT: u32 = 0x8000_0000;

/// Positive infinity in single precision.
pub const SINGLE_INFINITY: u32 = 0x7f80_0000;

/// A model that a node serves.
#[derive(Debug)]
pub struct ModelSpec {
    pub name: String,
    /// Token Quality Weight: nano-iTokens earned per generated token at regular speed.
    pub tqw_nano: u64,
    /// Model parameter count, such as `8B` or `70B`.
    pub parameters: String,
}

/// The values that a `ModelSpec` holds.
pub struct ModelSpecView {
    pub name: Seq<char>,
    pub tqw_nano: u64,
    pub parameters: Seq<char>,
}

impl View for ModelSpec {
    type V = ModelSpecView;

    open spec fn view(&self) -> ModelSpecView {
        ModelSpecView { name: self.name@, tqw_nano: self.tqw_nano, parameters: self.parameters@ }
    }
}

impl Clone for ModelSpec {
    fn clone(&self) -> (r: Self)
        ensures
            r@ == self@,
    {
        ModelSpec {
            name: self.name.clone(),
            tqw_nano: self.tqw_nano,
            parameters: self.parameters.clone(),
        }
    }
}

/// The values of a list of models.
pub open spec fn model_views(models: Seq<ModelSpec>) -> Seq<ModelSpecView> {
    models.map_values(|m: ModelSpec| m@)
}

/// One query to a model.
#[derive(Debug)]
pub struct InferenceRequest {
    pub request_id: String,
    pub prompt: String,
    pub model: String,
    pub max_tokens: Option<usize>,
    /// The bits of a single-precision number.
    pub temperature: u32,
}

/// The values that an `InferenceRequest` holds.
pub struct RequestView {
    pub request_id: Seq<char>,
    pub prompt: Seq<char>,
    pub model: Seq<char>,
    pub max_tokens: Option<usize>,
    pub temperature: u32,
}

impl View for InferenceRequest {
    type V = RequestView;

    open spec fn view(&self) -> RequestView {
        RequestView {
            request_id: self.request_id@,
            prompt: self.prompt@,
            model: self.model@,
            max_tokens: self.max_tokens,
            temperature: self.temperature,
        }
    }
}

impl Clone for InferenceRequest {
    fn clone(&self) -> (r: Self)
        ensures
            r@ == self@,
    {
        InferenceRequest {
            request_id: self.request_id.clone(),
            prompt: self.prompt.clone(),
            model: self.model.clone(),
            max_tokens: self.max_tokens,
            temperature: self.temperature,
        }
    }
}

/// A piece of an answer.
#[derive(Debug)]
pub struct InferenceResponseChunk {
    pub request_id: String,
    pub text: String,
    pub is_done: bool,
}

impl Clone for InferenceResponseChunk {
    fn clone(&self) -> (r: Self)
        ensures
            r.request_id@ == self.request_id@,
            r.text@ == self.text@,
            r.is_done == self.is_done,
    {
        InferenceResponseChunk {
            request_id: self.request_id.clone(),
            text: self.text.clone(),
            is_done: self.is_done,
        }
    }
}

/// Why a request is refused.
#[derive(Debug, Clone, Copy, PartialEq, Eq, Structural)]
pub enum RequestError {
    /// The request ID is empty or longer than the limit; its length in characters.
    RequestId(usize),
    EmptyPrompt,
    /// The prompt is longer than the limit; its length in bytes.
    PromptTooLarge(usize),
    /// The model name is empty or longer than the limit.
    ModelName,
    /// The temperature lies outside of the allowed range.
    Temperature,
    /// The number of tokens asked for is zero or over the limit.
    MaxTokens(usize),
}

/// The length of a text in bytes.
pub open spec fn bytes_in(s: Seq<char>) -> nat {
    vstd::utf8::encode_utf8(s).len()
}

/// Whether a single-precision number is below zero or above the allowed maximum. An undefined
/// number is neither.
pub open spec fn temperature_outside(t: u32) -> bool {
    let size = t % SINGLE_SIGN_BIT;
    size <= SINGLE_INFINITY && if t >= SINGLE_SIGN_BIT {
        size > 0
    } else {
        size > MAX_TEMPERATURE
    }
}

/// The first fault of a request, in the order in which its fields are looked at.
pub open spec fn request_fault(r: RequestView) -> Option<RequestError> {
    if r.request_id.len() == 0 || r.request_id.len() > MAX_REQUEST_ID_LEN {
        Some(RequestError::RequestId(r.request_id.len() as usize))
    } else if bytes_in(r.prompt) == 0 {
        Some(RequestError::EmptyPrompt)
    } else if bytes_in(r.prompt) > MAX_PROMPT_BYTES {
        Some(RequestError::PromptTooLarge(bytes_in(r.prompt) as usize))
    } else if r.model.len() == 0 || r.model.len() > MAX_MODEL_NAME_LEN {
        Some(RequestError::ModelName)
    } else if temperature_outside(r.temperature) {
        Some(RequestError::Temperature)
    } else {
        match r.max_tokens {
            Some(max) => if max == 0 || max > MAX_TOKENS_LIMIT {
                Some(RequestError::MaxTokens(max))
            } else {
                None
            },
            None => None,
        }
    }
}

impl InferenceRequest {
    /// Validate all fields before processing; the first fault decides.
    pub fn validate(&self) -> (r: Result<(), RequestError>)
        ensures
            match r {
                Ok(_) => request_fault(self@) is None,
                Err(e) => request_fault(self@) == Some(e),
            },
    {
        let id_len = self.request_id.as_str().unicode_len();
        if id_len == 0 || id_len > MAX_REQUEST_ID_LEN {
            return Err(RequestError::RequestId(id_len));
        }
        let prompt_len = byte_len(&self.prompt);
        if prompt_len == 0 {
            return Err(RequestError::EmptyPrompt);
        }
        if prompt_len > MAX_PROMPT_BYTES {
            return Err(RequestError::PromptTooLarge(prompt_len));
        }
        let model_len = self.model.as_str().unicode_len();
        if model_len == 0 || model_len > MAX_MODEL_NAME_LEN {
            return Err(RequestError::ModelName);
        }
        let size: u32 = self.temperature % SINGLE_SIGN_BIT;
        if size <= SINGLE_INFINITY {
            if self.temperature >= SINGLE_SIGN_BIT {
                if size > 0 {
                    return Err(RequestError::Temperature);
                }
            } else if size > MAX_TEMPERATURE {
                return Err(RequestError::Temperature);
            }
        }
        if let Some(max) = self.max_tokens {
            if max == 0 || max > MAX_TOKENS_LIMIT {
                return Err(RequestError::MaxTokens(max));
            }
        }
        Ok(())
    }
}

/// The words for a refused request, given the temperature as text.
pub open spec fn request_error_text(e: RequestError, temperature: Seq<char>) -> Seq<char> {
    match e {
        RequestError::RequestId(len) => "Request ID must be 1-128 characters, got "@
            + crate::text::decimal(len as nat),
        RequestError::EmptyPrompt => "Prompt cannot be empty"@,
        RequestError::PromptTooLarge(len) => "Prompt too large: "@ + crate::text::decimal(
            len as nat,
        ) + " bytes (max 131072)"@,
        RequestError::ModelName => "Model name must be 1-256 characters"@,
        RequestError::Temperature => "Temperature must be 0.0-2, got "@ + temperature,
        RequestError::MaxTokens(max) => "max_tokens must be 1-8192, got "@ + crate::text::decimal(
            max as nat,
        ),
    }
}

impl RequestError {
    /// The refusal in words. `temperature` is the temperature of the request as text.
    pub fn message(&self, temperature: &str) -> (s: String)
        ensures
            s@ == request_error_text(*self, temperature@),
    {
        match self {
            RequestError::RequestId(len) => {
                let mut s = "Request ID must be 1-128 characters, got ".to_owned();
                s.append(&decimal_text(*len as u64));
                s
            },
            RequestError::EmptyPrompt => "Prompt cannot be empty".to_owned(),
            RequestError::PromptTooLarge(len) => {
                let mut s = "Prompt too large: ".to_owned();
                s.append(&decimal_text(*len as u64));
                s.append(" bytes (max 131072)");
                s
            },
            RequestError::ModelName => "Model name must be 1-256 characters".to_owned(),
            RequestError::Temperature => {
                let mut s = "Temperature must be 0.0-2, got ".to_owned();
                s.append(temperature);
                s
            },
            RequestError::MaxTokens(max) => {
                let mut s = "max_tokens must be 1-8192, got ".to_owned();
                s.append(&decimal_text(*max as u64));
                s
            },
        }
    }
}

/// A request is accepted exactly where its ID has 1 to 128 characters, its prompt 1 to 131072 bytes
/// and its model name 1 to 256 characters, its temperature is from 0 to 2 or undefined, and it asks
/// for 1 to 8192 tokens or for no number. Temperatures are the bits of single-precision numbers.
pub proof fn law_request_is_accepted_within_limits(r: RequestView)
    ensures
        request_fault(r) is None <==> {
            &&& 1 <= r.request_id.len() <= 128
            &&& 1 <= vstd::utf8::encode_utf8(r.prompt).len() <= 131_072
            &&& 1 <= r.model.len() <= 256
            &&& r.temperature <= 0x4000_0000 || r.temperature == 0x8000_0000 || r.temperature
                % 0x8000_0000 > 0x7f80_0000
            &&& r.max_tokens is Some ==> 1 <= r.max_tokens->Some_0 <= 8192
        },
{
}

/// A refused request is refused for the first field that is out of its limits: the ID, the prompt,
/// the model, the temperature, the tokens.
pub proof fn law_request_is_refused_for_its_first_fault(r: RequestView)
    ensures
        ({
            let id = 1 <= r.request_id.len() <= 128;
            let bytes = vstd::utf8::encode_utf8(r.prompt).len();
            let prompt = id && 1 <= bytes <= 131_072;
            let model = prompt && 1 <= r.model.len() <= 256;
            let temperature = model && (r.temperature <= 0x4000_0000 || r.temperature
                == 0x8000_0000 || r.temperature % 0x8000_0000 > 0x7f80_0000);
            let fault = request_fault(r);
            &&& !id ==> fault == Some(RequestError::RequestId(r.request_id.len() as usize))
            &&& id && bytes == 0 ==> fault == Some(RequestError::EmptyPrompt)
            &&& id && bytes > 131_072 ==> fault == Some(
                RequestError::PromptTooLarge(bytes as usize),
            )
            &&& prompt && !model ==> fault == Some(RequestError::ModelName)
            &&& model && !temperature ==> fault == Some(RequestError::Temperature)
            &&& temperature && fault is Some ==> r.max_tokens is Some && fault == Some(
                RequestError::MaxTokens(r.max_tokens->Some_0),
            )
        }),
{
}

} // verus!
