//! The requests and replies of the two protocols, and the configuration.
use vstd::prelude::*;
use vstd::string::*;

use crate::json;
use crate::json::Json;

verus! {

// ---------------------------------------------------------------------------
// Anthropic Messages: what comes in
// ---------------------------------------------------------------------------

/// The bits of a 32-bit floating-point number that is passed on unread.
#[derive(Debug, Clone, Copy, PartialEq, Eq, Structural)]
pub struct FloatBits {
    pub bits: u32,
}

pub struct AnthropicRequest {
    pub model: String,
    pub messages: Vec<AnthropicMessage>,
    pub system: Option<SystemPrompt>,
    pub tools: Vec<ToolDef>,
    pub stream: bool,
    pub max_tokens: Option<u32>,
    pub temperature: Option<FloatBits>,
    pub top_p: Option<FloatBits>,
    pub stop_sequences: Option<Vec<String>>,
}

pub enum SystemPrompt {
    String(String),
    Blocks(Vec<TextBlock>),
}

pub struct TextBlock {
    pub block_type: String,
    pub text: String,
}

pub struct AnthropicMessage {
    pub role: String,
    pub content: AnthropicContent,
}

pub enum AnthropicContent {
    String(String),
    Blocks(Vec<ContentBlock>),
}

pub struct ContentBlock {
    pub block_type: String,
    pub text: Option<String>,
    pub id: Option<String>,
    pub name: Option<String>,
    pub input: Option<Json>,
    pub tool_use_id: Option<String>,
    pub content: Option<Json>,
    pub is_error: Option<bool>,
}

pub struct ToolDef {
    pub name: String,
    pub description: Option<String>,
    pub input_schema: Option<Json>,
}

// ---------------------------------------------------------------------------
// OpenAI Chat Completions: what goes out
// ---------------------------------------------------------------------------

pub struct OpenAIRequest {
    pub model: String,
    pub messages: Vec<OpenAIMessage>,
    pub stream: bool,
    pub tools: Option<Vec<OpenAITool>>,
    pub max_tokens: Option<u32>,
    pub temperature: Option<FloatBits>,
    pub top_p: Option<FloatBits>,
    pub stop: Option<Vec<String>>,
}

pub struct OpenAIMessage {
    pub role: String,
    pub content: Option<String>,
    pub tool_calls: Option<Vec<OpenAIToolCall>>,
    pub tool_call_id: Option<String>,
}

pub struct OpenAIToolCall {
    pub id: String,
    pub call_type: String,
    pub function: OpenAIFunctionCall,
}

pub struct OpenAIFunctionCall {
    pub name: String,
    pub arguments: String,
}

pub struct OpenAITool {
    pub tool_type: String,
    pub function: OpenAIToolFunction,
}

pub struct OpenAIToolFunction {
    pub name: String,
    pub description: String,
    pub parameters: Json,
}

// ---------------------------------------------------------------------------
// OpenAI stream chunks
// ---------------------------------------------------------------------------

pub struct OpenAISseChunk {
    pub choices: Vec<OpenAIChoice>,
}

pub struct OpenAIChoice {
    pub delta: Option<OpenAIDelta>,
    pub finish_reason: Option<String>,
}

pub struct OpenAIDelta {
    pub content: Option<String>,
    pub reasoning: Option<String>,
    pub reasoning_content: Option<String>,
    pub tool_calls: Option<Vec<OpenAIToolCallDelta>>,
}

pub struct OpenAIToolCallDelta {
    pub index: Option<u32>,
    pub id: Option<String>,
    pub function: Option<OpenAIFunctionDelta>,
}

pub struct OpenAIFunctionDelta {
    pub name: Option<String>,
    pub arguments: Option<String>,
}

// ---------------------------------------------------------------------------
// Views
// ---------------------------------------------------------------------------

pub open spec fn opt_text(o: Option<String>) -> Option<Seq<char>> {
    match o {
        Some(s) => Some(s@),
        None => None,
    }
}

/// The mathematical counterpart of `OpenAIToolCall`.
pub ghost struct CallView {
    pub id: Seq<char>,
    pub call_type: Seq<char>,
    pub name: Seq<char>,
    pub arguments: Seq<char>,
}

/// The mathematical counterpart of `OpenAIMessage`.
pub ghost struct MessageView {
    pub role: Seq<char>,
    pub content: Option<Seq<char>>,
    pub tool_calls: Option<Seq<CallView>>,
    pub tool_call_id: Option<Seq<char>>,
}

/// The mathematical counterpart of `OpenAITool`.
pub ghost struct ToolView {
    pub tool_type: Seq<char>,
    pub name: Seq<char>,
    pub description: Seq<char>,
    pub parameters: Seq<char>,
}

impl View for OpenAIToolCall {
    type V = CallView;

    open spec fn view(&self) -> CallView {
        CallView {
            id: self.id@,
            call_type: self.call_type@,
            name: self.function.name@,
            arguments: self.function.arguments@,
        }
    }
}

pub open spec fn call_views(v: Seq<OpenAIToolCall>) -> Seq<CallView> {
    v.map_values(|c: OpenAIToolCall| c@)
}

impl View for OpenAIMessage {
    type V = MessageView;

    open spec fn view(&self) -> MessageView {
        MessageView {
            role: self.role@,
            content: opt_text(self.content),
            tool_calls: match self.tool_calls {
                Some(v) => Some(call_views(v@)),
                None => None,
            },
            tool_call_id: opt_text(self.tool_call_id),
        }
    }
}

pub open spec fn message_views(v: Seq<OpenAIMessage>) -> Seq<MessageView> {
    v.map_values(|m: OpenAIMessage| m@)
}

impl View for OpenAITool {
    type V = ToolView;

    open spec fn view(&self) -> ToolView {
        ToolView {
            tool_type: self.tool_type@,
            name: self.function.name@,
            description: self.function.description@,
            parameters: self.function.parameters@,
        }
    }
}

pub open spec fn tool_views(v: Seq<OpenAITool>) -> Seq<ToolView> {
    v.map_values(|t: OpenAITool| t@)
}

/// A copy of an optional text.
pub fn copy_opt(o: &Option<String>) -> (r: Option<String>)
    ensures
        r == *o,
{
    match o {
        Some(s) => Some(s.clone()),
        None => None,
    }
}

// ---------------------------------------------------------------------------
// Configuration
// ---------------------------------------------------------------------------

/// One downstream model.
#[derive(Debug)]
pub struct LLMConfig {
    pub base_url: String,
    pub model_name: String,
    pub context_max_length: String,
    pub verify_ssl: bool,
    pub api_key: String,
    pub auth_header: String,
    pub auth_prefix: String,
    /// Whether the model takes tools in the request; one that does not is told
    /// in the system prompt how to write a call.
    pub supports_native_function_calling: bool,
    pub supports_reasoning_content: bool,
    /// Whether `chat_template_kwargs` goes into the request.
    pub thinking: bool,
    pub reasoning_effort: String,
    /// Whether the downstream reply is asked for as a stream.
    pub stream: bool,
}

impl Clone for LLMConfig {
    fn clone(&self) -> (r: LLMConfig)
        ensures
            r == *self,
    {
        LLMConfig {
            base_url: self.base_url.clone(),
            model_name: self.model_name.clone(),
            context_max_length: self.context_max_length.clone(),
            verify_ssl: self.verify_ssl,
            api_key: self.api_key.clone(),
            auth_header: self.auth_header.clone(),
            auth_prefix: self.auth_prefix.clone(),
            supports_native_function_calling: self.supports_native_function_calling,
            supports_reasoning_content: self.supports_reasoning_content,
            thinking: self.thinking,
            reasoning_effort: self.reasoning_effort.clone(),
            stream: self.stream,
        }
    }
}

impl Clone for ToolDef {
    fn clone(&self) -> (r: ToolDef)
        ensures
            r.name == self.name,
            r.description == self.description,
            json::opt_view(r.input_schema) == json::opt_view(self.input_schema),
    {
        ToolDef {
            name: self.name.clone(),
            description: copy_opt(&self.description),
            input_schema: match &self.input_schema {
                Some(j) => Some(j.clone()),
                None => None,
            },
        }
    }
}

/// Where the configuration does not say.
pub fn default_false() -> (r: bool)
    ensures
        r == false,
{
    false
}

/// Where the configuration does not say.
pub fn default_true() -> (r: bool)
    ensures
        r == true,
{
    true
}

pub fn default_context_max_length() -> (r: String)
    ensures
        r@ == "200k"@,
{
    "200k".to_owned()
}

pub fn default_api_key() -> (r: String)
    ensures
        r@ == "none"@,
{
    "none".to_owned()
}

pub fn default_auth_header() -> (r: String)
    ensures
        r@ == "Authorization"@,
{
    "Authorization".to_owned()
}

pub fn default_auth_prefix() -> (r: String)
    ensures
        r@ == "Bearer "@,
{
    "Bearer ".to_owned()
}

pub fn default_reasoning_effort() -> (r: String)
    ensures
        r@ == "max"@,
{
    "max".to_owned()
}

} // verus!
