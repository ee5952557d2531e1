//! Which provider and model to talk to, and where the key comes from.

use crate::paths::{user_path, user_place};
use crate::text::{
    blank, chars_of, debug_quoted, debug_text, is_ascii, is_blank, is_char, lemma_span,
    lemma_span_end, lowercase, lowercase_of, lowered, opt_str, opt_text, same_text, space, span,
    string_of, trim, trim_end_by, trim_end_char, trim_start_by, trimmed,
};
use vstd::prelude::*;

verus! {

/// Where the configuration lives, for messages.
pub const AI_CONFIG_PATH: &'static str = "~/.log-scouter/ai.json";

#[derive(Debug, Clone, Copy, PartialEq, Eq, Hash, Structural)]
pub enum Provider {
    OpenAi,
    Anthropic,
    Deepseek,
}

impl Provider {
    pub const ALL: [Provider; 3] = [Provider::OpenAi, Provider::Anthropic, Provider::Deepseek];

    pub open spec fn spec_label(self) -> Seq<char> {
        match self {
            Provider::OpenAi => "openai"@,
            Provider::Anthropic => "anthropic"@,
            Provider::Deepseek => "deepseek"@,
        }
    }

    pub fn label(self) -> (r: &'static str)
        ensures
            r@ == self.spec_label(),
    {
        match self {
            Provider::OpenAi => "openai",
            Provider::Anthropic => "anthropic",
            Provider::Deepseek => "deepseek",
        }
    }

    pub open spec fn key_name(self) -> Seq<char> {
        match self {
            Provider::OpenAi => "OPENAI_API_KEY"@,
            Provider::Anthropic => "ANTHROPIC_API_KEY"@,
            Provider::Deepseek => "DEEPSEEK_API_KEY"@,
        }
    }

    /// The environment variable holding this provider's key.
    pub fn key_var(self) -> (r: &'static str)
        ensures
            r@ == self.key_name(),
    {
        match self {
            Provider::OpenAi => "OPENAI_API_KEY",
            Provider::Anthropic => "ANTHROPIC_API_KEY",
            Provider::Deepseek => "DEEPSEEK_API_KEY",
        }
    }

    pub open spec fn usual_model(self, anthropic: Seq<char>) -> Seq<char> {
        match self {
            Provider::OpenAi => "gpt-4o"@,
            Provider::Anthropic => anthropic,
            Provider::Deepseek => "deepseek-chat"@,
        }
    }

    /// A capable default model, used until the user picks another. `anthropic` is the one that
    /// Anthropic is asked for, whose models are named anew with each release.
    pub fn default_model<'a>(self, anthropic: &'a str) -> (r: &'a str)
        ensures
            r@ == self.usual_model(anthropic@),
    {
        match self {
            Provider::OpenAi => "gpt-4o",
            Provider::Anthropic => anthropic,
            Provider::Deepseek => "deepseek-chat",
        }
    }

    pub open spec fn usual_url(self) -> Seq<char> {
        match self {
            Provider::OpenAi => "https://api.openai.com/v1"@,
            Provider::Anthropic => "https://api.anthropic.com/v1"@,
            Provider::Deepseek => "https://api.deepseek.com/v1"@,
        }
    }

    /// The default base URL for the chat endpoint. DeepSeek speaks the OpenAI wire format, so
    /// the two share an adapter and differ only here.
    pub fn default_base_url(self) -> (r: &'static str)
        ensures
            r@ == self.usual_url(),
    {
        match self {
            Provider::OpenAi => "https://api.openai.com/v1",
            Provider::Anthropic => "https://api.anthropic.com/v1",
            Provider::Deepseek => "https://api.deepseek.com/v1",
        }
    }

    /// True when this provider uses the Anthropic Messages API rather than the
    /// OpenAI-compatible `/chat/completions` shape.
    pub fn is_anthropic(self) -> (r: bool)
        ensures
            r == (self == Provider::Anthropic),
    {
        match self {
            Provider::Anthropic => true,
            _ => false,
        }
    }

    /// The provider of this name, which is written in any case and with blanks around it.
    pub fn from_label(label: &str) -> (r: Option<Provider>)
        ensures
            r == labelled(lowercase_of(trimmed(label@))),
            is_ascii(label@) ==> r == labelled(lowered(trimmed(label@))),
    {
        let name = lowercase(trim(label));
        proof {
            let rest = trim_start_by(label@, space());
            lemma_span(label@, space());
            lemma_span_end(rest, space());
            assert forall|i: int| is_ascii(label@) && 0 <= i < trimmed(label@).len() implies (
            #[trigger] trimmed(label@)[i]) as u32 <= 127 by {
                assert(trimmed(label@)[i] == label@[i + span(label@, space())]);
            }
        }
        Provider::named(name.as_str())
    }

    /// The provider with exactly this label.
    pub fn named(name: &str) -> (r: Option<Provider>)
        ensures
            r == labelled(name@),
    {
        if same_text(name, "openai") {
            Some(Provider::OpenAi)
        } else if same_text(name, "anthropic") {
            Some(Provider::Anthropic)
        } else if same_text(name, "deepseek") {
            Some(Provider::Deepseek)
        } else {
            None
        }
    }
}

/// The provider with exactly this label.
pub open spec fn labelled(name: Seq<char>) -> Option<Provider> {
    if name == "openai"@ {
        Some(Provider::OpenAi)
    } else if name == "anthropic"@ {
        Some(Provider::Anthropic)
    } else if name == "deepseek"@ {
        Some(Provider::Deepseek)
    } else {
        None
    }
}

#[derive(Debug, PartialEq, Eq)]
pub struct AiConfig {
    pub provider: Provider,
    /// Empty means "use the provider's default model".
    pub model: String,
    /// A key stored for the configured provider. The environment variable takes precedence.
    pub api_key: String,
}

impl Default for AiConfig {
    fn default() -> (r: Self)
        ensures
            r.provider == Provider::OpenAi,
            r.model@ == Seq::<char>::empty(),
            r.api_key@ == Seq::<char>::empty(),
    {
        AiConfig { provider: Provider::OpenAi, model: String::new(), api_key: String::new() }
    }
}

/// The text without the blanks around it, where anything is left.
pub open spec fn set_text(value: Option<Seq<char>>) -> Option<Seq<char>> {
    match value {
        Some(v) => if trimmed(v).len() > 0 {
            Some(trimmed(v))
        } else {
            None
        },
        None => None,
    }
}

fn set_value<'a>(value: Option<&'a str>) -> (r: Option<&'a str>)
    ensures
        opt_str(r) == set_text(opt_str(value)),
{
    match value {
        Some(v) => {
            let v = trim(v);
            if v.unicode_len() > 0 {
                Some(v)
            } else {
                None
            }
        },
        None => None,
    }
}

/// The first of two that is there.
pub open spec fn first_set(a: Option<Seq<char>>, b: Option<Seq<char>>) -> Option<Seq<char>> {
    if a is Some {
        a
    } else {
        b
    }
}

impl AiConfig {
    pub open spec fn chosen_model(self, usual: Seq<char>) -> Seq<char> {
        if is_blank(self.model@) {
            usual
        } else {
            self.model@
        }
    }

    /// The chosen model, or `usual`, the provider's default, when none was set.
    pub fn model(&self, usual: &str) -> (r: String)
        ensures
            r@ == self.chosen_model(usual@),
    {
        if blank(self.model.as_str()) {
            usual.to_string()
        } else {
            self.model.clone()
        }
    }

    /// The key for the configured provider: the value of its environment variable if set,
    /// otherwise the stored one.
    pub fn api_key(&self, from_env: Option<&str>) -> (r: Option<String>)
        ensures
            opt_text(r) == first_set(set_text(opt_str(from_env)), set_text(Some(self.api_key@))),
    {
        if let Some(key) = set_value(from_env) {
            return Some(key.to_string());
        }
        match set_value(Some(self.api_key.as_str())) {
            Some(key) => Some(key.to_string()),
            None => None,
        }
    }

    pub open spec fn chosen_url(self, override_url: Option<Seq<char>>) -> Seq<char> {
        match override_url {
            Some(url) => if trim_end_by(trimmed(url), is_char('/')).len() > 0 {
                trim_end_by(trimmed(url), is_char('/'))
            } else {
                self.provider.usual_url()
            },
            None => self.provider.usual_url(),
        }
    }

    /// The base URL to send to. `override_url`, the value of `LOGSCOUT_AI_BASE_URL`, wins over
    /// the provider's own: for a gateway, or a compatible endpoint of one's own.
    pub fn base_url(&self, override_url: Option<&str>) -> (r: String)
        ensures
            r@ == self.chosen_url(opt_str(override_url)),
    {
        match override_url {
            Some(url) => {
                let url = trim_end_char(trim(url), '/');
                if url.unicode_len() > 0 {
                    url.to_string()
                } else {
                    self.provider.default_base_url().to_string()
                }
            },
            None => self.provider.default_base_url().to_string(),
        }
    }

    /// Change what is given, and leave the rest. An unknown provider changes nothing.
    pub fn set(&mut self, provider: Option<&str>, api_key: Option<&str>, model: Option<&str>) -> (r:
        Result<(), String>)
        ensures
            match provider {
                Some(label) => (r is Err) == (labelled(lowercase_of(trimmed(label@))) is None),
                None => r is Ok,
            },
            match r {
                Err(e) => {
                    &&& e@ == "unknown provider "@ + debug_quoted(provider->0@)
                        + "; use openai, anthropic, or deepseek"@
                    &&& *final(self) == *old(self)
                },
                Ok(_) => {
                    &&& final(self).provider == match provider {
                        Some(label) => labelled(lowercase_of(trimmed(label@)))->0,
                        None => old(self).provider,
                    }
                    &&& final(self).model@ == match model {
                        Some(m) => m@,
                        None => old(self).model@,
                    }
                    &&& final(self).api_key@ == match api_key {
                        Some(k) => trimmed(k@),
                        None => old(self).api_key@,
                    }
                },
            },
    {
        if let Some(label) = provider {
            match Provider::from_label(label) {
                Some(p) => {
                    self.provider = p;
                },
                None => {
                    return Err(
                        "unknown provider ".to_string().concat(debug_text(label).as_str()).concat(
                            "; use openai, anthropic, or deepseek",
                        ),
                    );
                },
            }
        }
        if let Some(model) = model {
            self.model = model.to_string();
        }
        if let Some(key) = api_key {
            self.api_key = trim(key).to_string();
        }
        Ok(())
    }
}

/// The full path to `ai.json` under the user's home directory.
pub fn config_path(home: Option<&str>) -> (r: Option<String>)
    ensures
        opt_text(r) == user_place(opt_str(home), "ai.json"@),
{
    user_path(home, "ai.json")
}

// ---------------------------------------------------------------------------
// Showing the configuration
// ---------------------------------------------------------------------------

/// That many stars.
pub open spec fn stars(n: nat) -> Seq<char> {
    Seq::new(n, |i: int| '*')
}

/// A secret with only its first and last four characters showing; a short one is all stars.
pub open spec fn masked(key: Seq<char>) -> Seq<char> {
    if key.len() <= 8 {
        stars(
            if key.len() < 3 {
                3
            } else {
                key.len()
            },
        )
    } else {
        key.take(4) + "…"@ + key.skip(key.len() - 4)
    }
}

/// Show only the first and last four characters of a secret.
pub fn mask(key: &str) -> (r: String)
    ensures
        r@ == masked(key@),
{
    let chars = chars_of(key);
    let count: usize = chars.len();
    if count <= 8 {
        let n: usize = if count < 3 {
            3
        } else {
            count
        };
        let mut out = String::new();
        assert(out@ =~= stars(0));
        for i in 0..n
            invariant
                out@ == stars(i as nat),
        {
            out.push('*');
            assert(out@ =~= stars((i + 1) as nat));
        }
        return out;
    }
    let first = string_of(chars.as_slice(), 0, 4);
    let last = string_of(chars.as_slice(), count - 4, count);
    let r = first.concat("…").concat(last.as_str());
    assert(key@.subrange(0, 4) =~= key@.take(4));
    assert(key@.subrange(count - 4, count as int) =~= key@.skip(count - 4));
    r
}

impl AiConfig {
    /// Where the effective key comes from and a masked form of it: the environment variable
    /// first, then the stored key.
    pub open spec fn key_shown(self, from_env: Option<Seq<char>>) -> Option<
        (Seq<char>, Seq<char>),
    > {
        match set_text(from_env) {
            Some(key) => Some(("$"@ + self.provider.key_name(), masked(key))),
            None => match set_text(Some(self.api_key@)) {
                Some(key) => Some((AI_CONFIG_PATH@, masked(key))),
                None => None,
            },
        }
    }

    pub fn key_status(&self, from_env: Option<&str>) -> (r: Option<(String, String)>)
        ensures
            match r {
                Some(pair) => self.key_shown(opt_str(from_env)) == Some((pair.0@, pair.1@)),
                None => self.key_shown(opt_str(from_env)) is None,
            },
    {
        if let Some(key) = set_value(from_env) {
            return Some(("$".to_string().concat(self.provider.key_var()), mask(key)));
        }
        match set_value(Some(self.api_key.as_str())) {
            Some(key) => Some((AI_CONFIG_PATH.to_string(), mask(key))),
            None => None,
        }
    }

    pub open spec fn key_line(self, from_env: Option<Seq<char>>) -> Seq<char> {
        match self.key_shown(from_env) {
            Some((source, shown)) => "API key:  "@ + shown + "  (from "@ + source + ")"@,
            None => "API key:  not set — run `logscout config set --api-key <KEY>`, or set the "@
                + self.provider.key_name() + " environment variable"@,
        }
    }

    /// The provider, the model and the state of the key, never the key itself. `usual` is the
    /// provider's default model.
    pub fn describe(&self, usual: &str, from_env: Option<&str>) -> (r: String)
        ensures
            r@ == "Provider: "@ + self.provider.spec_label() + "\nModel:    "@
                + self.chosen_model(usual@) + "\n"@ + self.key_line(opt_str(from_env)),
    {
        let model = self.model(usual);
        let key = match self.key_status(from_env) {
            Some((source, shown)) => "API key:  ".to_string().concat(shown.as_str()).concat(
                "  (from ",
            ).concat(source.as_str()).concat(")"),
            None => "API key:  not set — run `logscout config set --api-key <KEY>`, or set the "
                .to_string().concat(self.provider.key_var()).concat(" environment variable"),
        };
        "Provider: ".to_string().concat(self.provider.label()).concat("\nModel:    ").concat(
            model.as_str(),
        ).concat("\n").concat(key.as_str())
    }
}

// ---------------------------------------------------------------------------
// Laws
// ---------------------------------------------------------------------------

/// A provider is found by its own label, and no two share one.
pub proof fn labels_name_their_provider(p: Provider)
    ensures
        labelled(p.spec_label()) == Some(p),
        forall|q: Provider| q.spec_label() == p.spec_label() ==> p == q,
{
    reveal_strlit("openai");
    reveal_strlit("anthropic");
    reveal_strlit("deepseek");
    assert("openai"@.len() == 6);
    assert("anthropic"@.len() == 9);
    assert("deepseek"@.len() == 8);
    assert forall|q: Provider| q.spec_label() == p.spec_label() implies p == q by {
        assert(labelled(q.spec_label()) == Some(q));
    }
}

/// A key set in the environment wins over the stored one, and a blank one counts as unset.
pub proof fn the_environment_wins(from_env: Seq<char>, stored: Seq<char>)
    ensures
        !is_blank(from_env) ==> first_set(set_text(Some(from_env)), set_text(Some(stored)))
            == Some(trimmed(from_env)),
        is_blank(from_env) ==> first_set(set_text(Some(from_env)), set_text(Some(stored)))
            == set_text(Some(stored)),
{
}

/// A mask gives away no more than the first and last four characters: two long secrets that
/// agree there look the same, and short ones of the same length do too.
pub proof fn masks_hide_the_rest(a: Seq<char>, b: Seq<char>)
    requires
        a.len() <= 8 && a.len() == b.len() || (a.len() > 8 && b.len() > 8 && a.take(4) == b.take(4)
            && a.skip(a.len() - 4) == b.skip(b.len() - 4)),
    ensures
        masked(a) == masked(b),
{
}

} // verus!
