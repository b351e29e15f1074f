//! What the translator computes around its calls to the model server: the
//! prompt, the request URL, the clean-up of the reply, and the retry policy.

use vstd::prelude::*;

use crate::patterns::{compile_regex, regex_parses, regex_replace_all, replace_all};
use crate::text::push_str;
use crate::types::MarkdownChunk;

verus! {

/// Backticks that the model put around italic text: `` `_word_` ``.
pub const ITALIC_BACKTICK_PATTERN: &'static str = "`(_[^_]+_)`";

/// Backticks that the model put around a reference link: `` `[text]: url` ``.
pub const LINK_BACKTICK_PATTERN: &'static str = "`(\\[[^\\]]+\\]:\\s*[^\\n]+)`";

/// The prompt up to the terminology section.
pub const PROMPT_HEAD: &'static str = "You are a professional technical translator.\n\nTranslate the following English Rust documentation into natural Japanese.\n\n";

/// The prompt between the terminology section and the text.
pub const PROMPT_RULES: &'static str = "\n\nRules:\n- Do NOT translate code blocks (preserve ```language ... ``` blocks exactly)\n- Use the provided terminology consistently\n- Keep sentences concise and technical\n- Preserve markdown formatting (headers, lists, links, etc.)\n- IMPORTANT: Preserve italic formatting with underscores (_word_) exactly as in original\n- IMPORTANT: For reference link sections at the end (format: [name]: url), translate ONLY the link text, do NOT add descriptions or explanations after the links\n\nText to translate:\n";

/// The path of the generation endpoint below the server's base URL.
pub const GENERATE_PATH: &'static str = "/api/generate";

/// Translator for interacting with Ollama: the model to ask and the server
/// to ask it on.
pub struct Translator {
    model: String,
    base_url: String,
}

/// `text` with every match of `pattern` replaced by its first group, or
/// unchanged when the pattern does not compile.
pub open spec fn unwrap_matches(pattern: Seq<char>, text: Seq<char>) -> Seq<char> {
    if regex_parses(pattern) {
        regex_replace_all(pattern, text, "$1"@)
    } else {
        text
    }
}

/// The reply with the backticks taken off italic text, then off reference
/// links.
pub open spec fn post_processed(text: Seq<char>) -> Seq<char> {
    unwrap_matches(LINK_BACKTICK_PATTERN@, unwrap_matches(ITALIC_BACKTICK_PATTERN@, text))
}

/// The pause before retry number `attempt + 1`: 100 ms, doubled after each
/// failed attempt.
pub open spec fn backoff_ms(attempt: nat) -> nat
    decreases attempt,
{
    if attempt == 0 {
        100
    } else {
        2 * backoff_ms((attempt - 1) as nat)
    }
}

/// What to do after an attempt failed.
#[derive(Debug, PartialEq, Eq, Structural)]
pub enum RetryAction {
    /// Wait this many milliseconds, then try again.
    Wait(u64),
    /// Every attempt has been used: report the failure.
    GiveUp,
}

/// The largest attempt index after which a pause still fits in `u64`.
pub const MAX_BACKOFF_ATTEMPT: usize = 57;

proof fn lemma_backoff_monotone(a: nat, b: nat)
    requires
        a <= b,
    ensures
        backoff_ms(a) <= backoff_ms(b),
    decreases b - a,
{
    if a < b {
        lemma_backoff_monotone(a, (b - 1) as nat);
    }
}

proof fn lemma_backoff_fits(a: nat)
    requires
        a <= MAX_BACKOFF_ATTEMPT,
    ensures
        backoff_ms(a) <= 14411518807585587200,
{
    reveal_with_fuel(backoff_ms, 58);
    assert(backoff_ms(57) == 14411518807585587200nat);
    lemma_backoff_monotone(a, 57);
}

/// The decision after attempt `attempt` (counted from 0) of `max_retries`
/// failed: wait `100 * 2^attempt` ms and try again while attempts are left,
/// else give up.
pub fn after_failed_attempt(attempt: usize, max_retries: usize) -> (action: RetryAction)
    requires
        attempt < max_retries,
        attempt + 1 < max_retries ==> attempt <= MAX_BACKOFF_ATTEMPT,
    ensures
        attempt + 1 < max_retries ==> action == RetryAction::Wait(backoff_ms(attempt as nat) as u64)
            && backoff_ms(attempt as nat) <= u64::MAX,
        attempt + 1 >= max_retries ==> action == RetryAction::GiveUp,
{
    if attempt < max_retries - 1 {
        let mut delay: u64 = 100;
        let mut i: usize = 0;
        while i < attempt
            invariant
                i <= attempt <= MAX_BACKOFF_ATTEMPT,
                delay == backoff_ms(i as nat),
            decreases attempt - i,
        {
            proof {
                lemma_backoff_fits((i + 1) as nat);
            }
            delay = delay * 2;
            i = i + 1;
        }
        proof {
            lemma_backoff_fits(attempt as nat);
        }
        RetryAction::Wait(delay)
    } else {
        RetryAction::GiveUp
    }
}

/// Each pause of the retry loop is twice the one before it.
pub proof fn lemma_backoff_doubles(attempt: nat)
    ensures
        backoff_ms(attempt + 1) == 2 * backoff_ms(attempt),
        backoff_ms(0) == 100,
{
}

impl Translator {
    /// Create a new translator
    pub fn new(model: &str, base_url: &str) -> (t: Self)
        ensures
            t.model_name() == model@,
            t.server_url() == base_url@,
    {
        Translator { model: model.to_owned(), base_url: base_url.to_owned() }
    }

    pub closed spec fn model_name(&self) -> Seq<char> {
        self.model@
    }

    pub closed spec fn server_url(&self) -> Seq<char> {
        self.base_url@
    }

    /// The model that translations are asked of.
    pub fn model(&self) -> (m: &str)
        ensures
            m@ == self.model_name(),
    {
        self.model.as_str()
    }

    /// The URL of the server's generation endpoint.
    pub fn generate_url(&self) -> (url: String)
        ensures
            url@ == self.server_url() + GENERATE_PATH@,
    {
        let mut url = self.base_url.clone();
        push_str(&mut url, GENERATE_PATH);
        url
    }

    /// Build translation prompt with terminology
    pub fn build_prompt(&self, chunk: &MarkdownChunk, terminology_prompt: &str) -> (prompt: String)
        ensures
            prompt@ == PROMPT_HEAD@ + terminology_prompt@ + PROMPT_RULES@ + chunk.content@,
    {
        let mut prompt = String::new();
        push_str(&mut prompt, PROMPT_HEAD);
        push_str(&mut prompt, terminology_prompt);
        push_str(&mut prompt, PROMPT_RULES);
        push_str(&mut prompt, chunk.content.as_str());
        proof {
            assert(prompt@ =~= PROMPT_HEAD@ + terminology_prompt@ + PROMPT_RULES@ + chunk.content@);
        }
        prompt
    }

    /// Post-process a translation to fix formatting issues: backticks that
    /// the model put around italic text and around reference links.
    pub fn post_process_translation(text: String) -> (r: String)
        ensures
            r@ == post_processed(text@),
    {
        let italic = compile_regex(ITALIC_BACKTICK_PATTERN);
        let text = match italic {
            Some(re) => replace_all(&re, text.as_str(), "$1"),
            None => text,
        };
        let link = compile_regex(LINK_BACKTICK_PATTERN);
        match link {
            Some(re) => replace_all(&re, text.as_str(), "$1"),
            None => text,
        }
    }
}


/// Post-processing unwraps every match of both patterns across the whole
/// text: the result is what `Regex::replace_all` gives for the italic
/// pattern on the text, then for the link pattern on that, each match
/// replaced by its group.
pub proof fn lemma_post_processing_replaces_all(text: Seq<char>)
    requires
        regex_parses(ITALIC_BACKTICK_PATTERN@),
        regex_parses(LINK_BACKTICK_PATTERN@),
    ensures
        post_processed(text) == regex_replace_all(
            LINK_BACKTICK_PATTERN@,
            regex_replace_all(ITALIC_BACKTICK_PATTERN@, text, "$1"@),
            "$1"@,
        ),
{
}

} // verus!
