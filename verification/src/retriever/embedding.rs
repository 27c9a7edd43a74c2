//! Where the vectors of texts come from.

use crate::text;
use crate::text::{
    CharClass, cat2, cat3, cat4, char_count, chars_of, owned, same, string_of, string_or,
    to_lowercase, trim_trailing_chars, trimmed, usize_text,
};
use vstd::prelude::*;

verus! {

/// Stands where no service for vectors is set up: it never gives one.
#[derive(Debug, Clone, Copy)]
pub struct NoOpEmbeddingProvider;

impl NoOpEmbeddingProvider {
    pub fn new() -> (r: Self) {
        NoOpEmbeddingProvider
    }

    pub fn model_name(&self) -> (r: &'static str)
        ensures
            r@ == "noop"@,
    {
        "noop"
    }

    pub fn embed_query(&self, text: &str) -> (r: Result<Vec<u32>, String>)
        ensures
            r matches Err(e) && e@ == "embedding provider is not configured (NoOp)"@,
    {
        Err(owned("embedding provider is not configured (NoOp)"))
    }

    pub fn embed_documents(&self, texts: &Vec<String>) -> (r: Result<Vec<Vec<u32>>, String>)
        ensures
            r matches Err(e) && e@ == "embedding provider is not configured (NoOp)"@,
    {
        Err(owned("embedding provider is not configured (NoOp)"))
    }
}

impl Default for NoOpEmbeddingProvider {
    fn default() -> (r: Self) {
        NoOpEmbeddingProvider::new()
    }
}

/// A service for vectors: none, or one whose settings stand in the environment under names
/// that start with the given prefix.
#[derive(Debug, Clone, PartialEq, Eq)]
pub enum ProviderChoice {
    NoOp,
    Env(String),
}

/// The service with a name in lower case.
pub open spec fn chosen_prefix(lowered: Seq<char>) -> Option<Seq<char>> {
    if lowered == "deepseek"@ {
        Some("DEEPSEEK"@)
    } else if lowered == "moonshot"@ {
        Some("MOONSHOT"@)
    } else if lowered == "openai"@ {
        Some("OPENAI"@)
    } else {
        None
    }
}

pub open spec fn unknown_provider(lowered: Seq<char>) -> Seq<char> {
    "不支持的 embedding provider: "@ + lowered + "。支持: noop, deepseek, moonshot, openai"@
}

/// What is chosen by a name in lower case.
pub open spec fn choice(lowered: Seq<char>, r: Result<ProviderChoice, String>) -> bool {
    match r {
        Ok(ProviderChoice::NoOp) => lowered == "noop"@,
        Ok(ProviderChoice::Env(prefix)) => lowered != "noop"@ && chosen_prefix(lowered) == Some(
            prefix@,
        ),
        Err(e) => lowered != "noop"@ && chosen_prefix(lowered) is None && e@ == unknown_provider(
            lowered,
        ),
    }
}

/// The service with a name that is in lower case.
pub fn choose_provider(lowered: &str) -> (r: Result<ProviderChoice, String>)
    ensures
        choice(lowered@, r),
{
    if same(lowered, "noop") {
        Ok(ProviderChoice::NoOp)
    } else if same(lowered, "deepseek") {
        Ok(ProviderChoice::Env(owned("DEEPSEEK")))
    } else if same(lowered, "moonshot") {
        Ok(ProviderChoice::Env(owned("MOONSHOT")))
    } else if same(lowered, "openai") {
        Ok(ProviderChoice::Env(owned("OPENAI")))
    } else {
        Err(
            cat3(
                "不支持的 embedding provider: ",
                lowered,
                "。支持: noop, deepseek, moonshot, openai",
            ),
        )
    }
}

/// The service with a name, whatever its case and the white space around it.
pub fn create_embedding_provider(provider_name: &str) -> (r: Result<ProviderChoice, String>)
    ensures
        choice(text::lowercase(text::trim(provider_name@)), r),
{
    let lowered = to_lowercase(trimmed(provider_name).as_str());
    choose_provider(lowered.as_str())
}

/// How a service is reached.
#[derive(Debug, Clone, PartialEq, Eq)]
pub struct EmbeddingSettings {
    pub api_key: String,
    pub base_url: String,
    pub model: String,
    pub name: String,
}

pub open spec fn default_model(prefix: Seq<char>) -> Seq<char> {
    if prefix == "MOONSHOT"@ {
        "text-embedding-v2"@
    } else {
        "text-embedding-3-small"@
    }
}

/// Reads the settings of a service from what the environment holds under its names. The
/// key and the address have to be there.
pub fn read_settings(
    prefix: &str,
    api_key: Option<String>,
    base_url: Option<String>,
    model: Option<String>,
) -> (r: Result<EmbeddingSettings, String>)
    ensures
        ({
            let key = text::text_or(text::opt_text(api_key), ""@);
            let url = text::text_or(text::opt_text(base_url), ""@);
            match r {
                Ok(s) => {
                    &&& key.len() > 0
                    &&& url.len() > 0
                    &&& s.api_key@ == key
                    &&& s.base_url@ == text::drop_trailing(url, CharClass::Only('/'))
                    &&& s.model@ == text::text_or(text::opt_text(model), default_model(prefix@))
                    &&& s.name@ == "openai_compat_"@ + text::lowercase(prefix@)
                },
                Err(e) => {
                    ||| key.len() == 0 && e@ == prefix@ + "_API_KEY"@ + " 环境变量未设置"@
                    ||| key.len() > 0 && url.len() == 0 && e@ == prefix@ + "_BASE_URL"@
                        + " 环境变量未设置"@
                },
            }
        }),
{
    proof {
        reveal_strlit("");
    }
    let key = string_or(&api_key, "");
    if char_count(key.as_str()) == 0 {
        return Err(cat3(prefix, "_API_KEY", " 环境变量未设置"));
    }
    let url = string_or(&base_url, "");
    if char_count(url.as_str()) == 0 {
        return Err(cat3(prefix, "_BASE_URL", " 环境变量未设置"));
    }
    let model = if same(prefix, "MOONSHOT") {
        string_or(&model, "text-embedding-v2")
    } else {
        string_or(&model, "text-embedding-3-small")
    };
    let name = cat2("openai_compat_", to_lowercase(prefix).as_str());
    let address = trim_trailing_chars(&chars_of(url.as_str()), CharClass::Only('/'));
    Ok(
        EmbeddingSettings {
            api_key: key,
            base_url: string_of(&address),
            model,
            name,
        },
    )
}

/// Whether a service answered with one vector for each text.
pub fn check_vector_count(requested: usize, returned: usize) -> (r: Result<(), String>)
    ensures
        match r {
            Ok(_) => requested == returned,
            Err(e) => requested != returned && e@ == "embedding 返回向量数不匹配: requested="@
                + text::decimal(requested as nat) + ", returned="@ + text::decimal(returned as nat),
        },
{
    if requested == returned {
        Ok(())
    } else {
        Err(
            cat4(
                "embedding 返回向量数不匹配: requested=",
                usize_text(requested).as_str(),
                ", returned=",
                usize_text(returned).as_str(),
            ),
        )
    }
}

/// The answer of a service whose status is none of success.
pub open spec fn service_error(status: nat, model: Seq<char>, base_url: Seq<char>, body: Seq<char>) -> Seq<
    char,
> {
    "embedding API 错误 (status="@ + text::decimal(status) + " model="@ + model + " base_url="@
        + base_url + "): "@ + body
}

/// Whether a service answered with success.
pub fn check_service_status(status: u16, settings: &EmbeddingSettings, body: &str) -> (r: Result<
    (),
    String,
>)
    ensures
        match r {
            Ok(_) => 200 <= status < 300,
            Err(e) => !(200 <= status < 300) && e@ == service_error(
                status as nat,
                settings.model@,
                settings.base_url@,
                body@,
            ),
        },
{
    if 200 <= status && status < 300 {
        return Ok(());
    }
    let number = usize_text(status as usize);
    let start = cat4(
        "embedding API 错误 (status=",
        number.as_str(),
        " model=",
        settings.model.as_str(),
    );
    let middle = cat3(start.as_str(), " base_url=", settings.base_url.as_str());
    Err(cat3(middle.as_str(), "): ", body))
}

/// The address at which a service gives vectors.
pub fn embeddings_url(settings: &EmbeddingSettings) -> (r: String)
    ensures
        r@ == settings.base_url@ + "/embeddings"@,
{
    cat2(settings.base_url.as_str(), "/embeddings")
}

/// Which service a name stands for: just these four names are known.
pub proof fn lemma_known_services(lowered: Seq<char>, r: Result<ProviderChoice, String>)
    requires
        choice(lowered, r),
    ensures
        lowered == "noop"@ ==> r matches Ok(ProviderChoice::NoOp),
        lowered == "deepseek"@ ==> (r matches Ok(ProviderChoice::Env(p)) && p@ == "DEEPSEEK"@),
        lowered == "moonshot"@ ==> (r matches Ok(ProviderChoice::Env(p)) && p@ == "MOONSHOT"@),
        lowered == "openai"@ ==> (r matches Ok(ProviderChoice::Env(p)) && p@ == "OPENAI"@),
        lowered != "noop"@ && lowered != "deepseek"@ && lowered != "moonshot"@ && lowered
            != "openai"@ ==> (r matches Err(e) && text::contains(e@, lowered)),
{
    reveal_strlit("noop");
    reveal_strlit("deepseek");
    reveal_strlit("moonshot");
    reveal_strlit("openai");
    assert("noop"@.len() == 4 && "openai"@.len() == 6);
    assert("deepseek"@.len() == 8 && "deepseek"@[0] == 'd');
    assert("moonshot"@.len() == 8 && "moonshot"@[0] == 'm');
    text::lemma_holds(
        "不支持的 embedding provider: "@,
        lowered,
        "。支持: noop, deepseek, moonshot, openai"@,
    );
}

/// The error of a service tells its status, the model, its address and its answer.
pub proof fn lemma_service_error(
    status: nat,
    model: Seq<char>,
    base_url: Seq<char>,
    body: Seq<char>,
)
    ensures
        ({
            let e = service_error(status, model, base_url, body);
            &&& text::contains(e, text::decimal(status))
            &&& text::contains(e, model)
            &&& text::contains(e, base_url)
            &&& text::ends_with(e, body)
        }),
{
    let e = service_error(status, model, base_url, body);
    let d = text::decimal(status);
    let x = "embedding API 错误 (status="@;
    text::lemma_holds(x, d, " model="@ + model + " base_url="@ + base_url + "): "@ + body);
    assert(x + d + (" model="@ + model + " base_url="@ + base_url + "): "@ + body) =~= e);
    text::lemma_holds(x + d + " model="@, model, " base_url="@ + base_url + "): "@ + body);
    assert(x + d + " model="@ + model + (" base_url="@ + base_url + "): "@ + body) =~= e);
    text::lemma_holds(x + d + " model="@ + model + " base_url="@, base_url, "): "@ + body);
    assert(x + d + " model="@ + model + " base_url="@ + base_url + ("): "@ + body) =~= e);
    let n = e.len() - body.len();
    assert(e.subrange(n, n + body.len()) =~= body);
}

} // verus!
