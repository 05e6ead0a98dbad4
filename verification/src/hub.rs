//! HuggingFace Hub: which files a tokenizer is loaded from.
use crate::normalizer;
use crate::normalizer::lower_ascii;
use crate::pretokie::util;
use crate::text;
use crate::text::{same_text, substr};
use vstd::prelude::*;
use vstd::string::*;
use vstd::utf8::*;

verus! {

/// Options for loading a pretrained tokenizer.
#[derive(Debug, PartialEq, Eq)]
pub struct FromPretrainedOptions {
    /// Git revision (branch, tag, or commit hash). Defaults to "main".
    pub revision: Option<String>,
    /// Custom cache directory. Defaults to the cache of the hub.
    pub cache_dir: Option<String>,
    /// API token for private repositories.
    pub token: Option<String>,
}

impl Default for FromPretrainedOptions {
    fn default() -> (r: Self)
        ensures
            r.revision is None,
            r.cache_dir is None,
            r.token is None,
    {
        FromPretrainedOptions { revision: None, cache_dir: None, token: None }
    }
}

impl FromPretrainedOptions {
    /// Set the git revision (branch, tag, or commit hash).
    pub fn revision(self, revision: String) -> (r: Self)
        ensures
            r == (FromPretrainedOptions { revision: Some(revision), ..self }),
    {
        FromPretrainedOptions { revision: Some(revision), ..self }
    }

    /// Set a custom cache directory.
    pub fn cache_dir(self, path: String) -> (r: Self)
        ensures
            r == (FromPretrainedOptions { cache_dir: Some(path), ..self }),
    {
        FromPretrainedOptions { cache_dir: Some(path), ..self }
    }

    /// Set the API token for private repositories.
    pub fn token(self, token: String) -> (r: Self)
        ensures
            r == (FromPretrainedOptions { token: Some(token), ..self }),
    {
        FromPretrainedOptions { token: Some(token), ..self }
    }
}

/// The name of the pre-built repository of a model, by the model's name in
/// lower case.
pub open spec fn prebuilt_name(key: Seq<char>) -> Option<Seq<char>> {
    if key == "alibaba-nlp/gte-qwen2-7b-instruct"@ {
        Some("gte-Qwen2-7B-instruct"@)
    } else if key == "baai/bge-base-en-v1.5"@ {
        Some("bge-base-en-v1.5"@)
    } else if key == "baai/bge-en-icl"@ {
        Some("bge-en-icl"@)
    } else if key == "baai/bge-large-en-v1.5"@ {
        Some("bge-large-en-v1.5"@)
    } else if key == "baai/bge-small-en-v1.5"@ {
        Some("bge-small-en-v1.5"@)
    } else if key == "cohere/cohere-embed-english-v3.0"@ {
        Some("Cohere-embed-english-v3.0"@)
    } else if key == "cohere/cohere-embed-english-light-v3.0"@ {
        Some("Cohere-embed-english-light-v3.0"@)
    } else if key == "cohere/cohere-embed-multilingual-v3.0"@ {
        Some("Cohere-embed-multilingual-v3.0"@)
    } else if key == "cohere/cohere-embed-multilingual-light-v3.0"@ {
        Some("Cohere-embed-multilingual-light-v3.0"@)
    } else if key == "intfloat/e5-small-v2"@ {
        Some("e5-small-v2"@)
    } else if key == "intfloat/e5-base-v2"@ {
        Some("e5-base-v2"@)
    } else if key == "intfloat/e5-large-v2"@ {
        Some("e5-large-v2"@)
    } else if key == "jinaai/jina-embeddings-v2-base-en"@ {
        Some("jina-embeddings-v2-base-en"@)
    } else if key == "jinaai/jina-embeddings-v2-base-code"@ {
        Some("jina-embeddings-v2-base-code"@)
    } else if key == "jinaai/jina-embeddings-v3"@ {
        Some("jina-embeddings-v3"@)
    } else if key == "jinaai/jina-embeddings-v4"@ {
        Some("jina-embeddings-v4"@)
    } else if key == "mixedbread-ai/mxbai-embed-large-v1"@ {
        Some("mxbai-embed-large-v1"@)
    } else if key == "mixedbread-ai/mxbai-embed-2d-large-v1"@ {
        Some("mxbai-embed-2d-large-v1"@)
    } else if key == "mixedbread-ai/mxbai-embed-xsmall-v1"@ {
        Some("mxbai-embed-xsmall-v1"@)
    } else if key == "mixedbread-ai/deepset-mxbai-embed-de-large-v1"@ {
        Some("deepset-mxbai-embed-de-large-v1"@)
    } else if key == "nomic-ai/nomic-embed-text-v1"@ {
        Some("nomic-embed-text-v1"@)
    } else if key == "qwen/qwen3-embedding-0.6b"@ {
        Some("Qwen3-Embedding-0.6B"@)
    } else if key == "qwen/qwen3-embedding-4b"@ {
        Some("Qwen3-Embedding-4B"@)
    } else if key == "qwen/qwen3-embedding-8b"@ {
        Some("Qwen3-Embedding-8B"@)
    } else if key == "sentence-transformers/all-minilm-l6-v2"@ {
        Some("all-MiniLM-L6-v2"@)
    } else if key == "sentence-transformers/all-minilm-l12-v2"@ {
        Some("all-MiniLM-L12-v2"@)
    } else if key == "sentence-transformers/all-mpnet-base-v2"@ {
        Some("all-mpnet-base-v2"@)
    } else if key == "thenlper/gte-small"@ {
        Some("gte-small"@)
    } else if key == "thenlper/gte-base"@ {
        Some("gte-base"@)
    } else if key == "thenlper/gte-large"@ {
        Some("gte-large"@)
    } else if key == "voyageai/voyage-3"@ {
        Some("voyage-3"@)
    } else if key == "voyageai/voyage-3-lite"@ {
        Some("voyage-3-lite"@)
    } else if key == "voyageai/voyage-3-large"@ {
        Some("voyage-3-large"@)
    } else if key == "voyageai/voyage-3.5"@ {
        Some("voyage-3.5"@)
    } else if key == "voyageai/voyage-3.5-lite"@ {
        Some("voyage-3.5-lite"@)
    } else if key == "voyageai/voyage-code-2"@ {
        Some("voyage-code-2"@)
    } else if key == "voyageai/voyage-code-3"@ {
        Some("voyage-code-3"@)
    } else if key == "voyageai/voyage-finance-2"@ {
        Some("voyage-finance-2"@)
    } else if key == "voyageai/voyage-law-2"@ {
        Some("voyage-law-2"@)
    } else if key == "voyageai/voyage-multilingual-2"@ {
        Some("voyage-multilingual-2"@)
    } else if key == "voyageai/voyage-multimodal-3"@ {
        Some("voyage-multimodal-3"@)
    } else if key == "cross-encoder/ms-marco-minilm-l-4-v2"@ {
        Some("ms-marco-MiniLM-L-4-v2"@)
    } else if key == "cross-encoder/ms-marco-minilm-l-6-v2"@ {
        Some("ms-marco-MiniLM-L-6-v2"@)
    } else if key == "bert-base-uncased"@ {
        Some("bert-base-uncased"@)
    } else if key == "facebookai/roberta-base"@ {
        Some("roberta-base"@)
    } else if key == "answerdotai/modernbert-base"@ {
        Some("ModernBERT-base"@)
    } else if key == "openai-community/gpt2"@ {
        Some("gpt2"@)
    } else if key == "xenova/gpt-4"@ {
        Some("cl100k"@)
    } else if key == "xenova/gpt-4o"@ {
        Some("o200k"@)
    } else if key == "meta-llama/llama-3.2-1b"@ {
        Some("Llama-3.2-1B"@)
    } else if key == "meta-llama/llama-4-scout-17b-16e"@ {
        Some("Llama-4-Scout-17B-16E"@)
    } else if key == "codellama/codellama-7b-hf"@ {
        Some("CodeLlama-7b-hf"@)
    } else if key == "mistralai/mistral-7b-v0.1"@ {
        Some("Mistral-7B-v0.1"@)
    } else if key == "mistralai/mistral-nemo-base-2407"@ {
        Some("Mistral-Nemo-Base-2407"@)
    } else if key == "mistralai/mixtral-8x7b-v0.1"@ {
        Some("Mixtral-8x7B-v0.1"@)
    } else if key == "microsoft/phi-2"@ {
        Some("phi-2"@)
    } else if key == "microsoft/phi-3-mini-4k-instruct"@ {
        Some("Phi-3-mini-4k-instruct"@)
    } else if key == "qwen/qwen2-7b"@ {
        Some("Qwen2-7B"@)
    } else if key == "google-t5/t5-base"@ {
        Some("t5-base"@)
    } else if key == "facebookai/xlm-roberta-base"@ {
        Some("xlm-roberta-base"@)
    } else {
        None
    }
}

/// The text in ASCII lower case.
pub open spec fn lowered(s: Seq<char>) -> Seq<char> {
    Seq::new(s.len(), |i: int| normalizer::ascii_lowercase(s[i]))
}

/// The name of the pre-built repository of a model.
fn lookup_prebuilt(key: &str) -> (r: Option<&'static str>)
    ensures
        match r {
            Some(s) => prebuilt_name(key@) == Some(s@),
            None => prebuilt_name(key@) is None,
        },
{
    if same_text(key, "alibaba-nlp/gte-qwen2-7b-instruct") {
        return Some("gte-Qwen2-7B-instruct");
    }
    if same_text(key, "baai/bge-base-en-v1.5") {
        return Some("bge-base-en-v1.5");
    }
    if same_text(key, "baai/bge-en-icl") {
        return Some("bge-en-icl");
    }
    if same_text(key, "baai/bge-large-en-v1.5") {
        return Some("bge-large-en-v1.5");
    }
    if same_text(key, "baai/bge-small-en-v1.5") {
        return Some("bge-small-en-v1.5");
    }
    if same_text(key, "cohere/cohere-embed-english-v3.0") {
        return Some("Cohere-embed-english-v3.0");
    }
    if same_text(key, "cohere/cohere-embed-english-light-v3.0") {
        return Some("Cohere-embed-english-light-v3.0");
    }
    if same_text(key, "cohere/cohere-embed-multilingual-v3.0") {
        return Some("Cohere-embed-multilingual-v3.0");
    }
    if same_text(key, "cohere/cohere-embed-multilingual-light-v3.0") {
        return Some("Cohere-embed-multilingual-light-v3.0");
    }
    if same_text(key, "intfloat/e5-small-v2") {
        return Some("e5-small-v2");
    }
    if same_text(key, "intfloat/e5-base-v2") {
        return Some("e5-base-v2");
    }
    if same_text(key, "intfloat/e5-large-v2") {
        return Some("e5-large-v2");
    }
    if same_text(key, "jinaai/jina-embeddings-v2-base-en") {
        return Some("jina-embeddings-v2-base-en");
    }
    if same_text(key, "jinaai/jina-embeddings-v2-base-code") {
        return Some("jina-embeddings-v2-base-code");
    }
    if same_text(key, "jinaai/jina-embeddings-v3") {
        return Some("jina-embeddings-v3");
    }
    if same_text(key, "jinaai/jina-embeddings-v4") {
        return Some("jina-embeddings-v4");
    }
    if same_text(key, "mixedbread-ai/mxbai-embed-large-v1") {
        return Some("mxbai-embed-large-v1");
    }
    if same_text(key, "mixedbread-ai/mxbai-embed-2d-large-v1") {
        return Some("mxbai-embed-2d-large-v1");
    }
    if same_text(key, "mixedbread-ai/mxbai-embed-xsmall-v1") {
        return Some("mxbai-embed-xsmall-v1");
    }
    if same_text(key, "mixedbread-ai/deepset-mxbai-embed-de-large-v1") {
        return Some("deepset-mxbai-embed-de-large-v1");
    }
    if same_text(key, "nomic-ai/nomic-embed-text-v1") {
        return Some("nomic-embed-text-v1");
    }
    if same_text(key, "qwen/qwen3-embedding-0.6b") {
        return Some("Qwen3-Embedding-0.6B");
    }
    if same_text(key, "qwen/qwen3-embedding-4b") {
        return Some("Qwen3-Embedding-4B");
    }
    if same_text(key, "qwen/qwen3-embedding-8b") {
        return Some("Qwen3-Embedding-8B");
    }
    if same_text(key, "sentence-transformers/all-minilm-l6-v2") {
        return Some("all-MiniLM-L6-v2");
    }
    if same_text(key, "sentence-transformers/all-minilm-l12-v2") {
        return Some("all-MiniLM-L12-v2");
    }
    if same_text(key, "sentence-transformers/all-mpnet-base-v2") {
        return Some("all-mpnet-base-v2");
    }
    if same_text(key, "thenlper/gte-small") {
        return Some("gte-small");
    }
    if same_text(key, "thenlper/gte-base") {
        return Some("gte-base");
    }
    if same_text(key, "thenlper/gte-large") {
        return Some("gte-large");
    }
    if same_text(key, "voyageai/voyage-3") {
        return Some("voyage-3");
    }
    if same_text(key, "voyageai/voyage-3-lite") {
        return Some("voyage-3-lite");
    }
    if same_text(key, "voyageai/voyage-3-large") {
        return Some("voyage-3-large");
    }
    if same_text(key, "voyageai/voyage-3.5") {
        return Some("voyage-3.5");
    }
    if same_text(key, "voyageai/voyage-3.5-lite") {
        return Some("voyage-3.5-lite");
    }
    if same_text(key, "voyageai/voyage-code-2") {
        return Some("voyage-code-2");
    }
    if same_text(key, "voyageai/voyage-code-3") {
        return Some("voyage-code-3");
    }
    if same_text(key, "voyageai/voyage-finance-2") {
        return Some("voyage-finance-2");
    }
    if same_text(key, "voyageai/voyage-law-2") {
        return Some("voyage-law-2");
    }
    if same_text(key, "voyageai/voyage-multilingual-2") {
        return Some("voyage-multilingual-2");
    }
    if same_text(key, "voyageai/voyage-multimodal-3") {
        return Some("voyage-multimodal-3");
    }
    if same_text(key, "cross-encoder/ms-marco-minilm-l-4-v2") {
        return Some("ms-marco-MiniLM-L-4-v2");
    }
    if same_text(key, "cross-encoder/ms-marco-minilm-l-6-v2") {
        return Some("ms-marco-MiniLM-L-6-v2");
    }
    if same_text(key, "bert-base-uncased") {
        return Some("bert-base-uncased");
    }
    if same_text(key, "facebookai/roberta-base") {
        return Some("roberta-base");
    }
    if same_text(key, "answerdotai/modernbert-base") {
        return Some("ModernBERT-base");
    }
    if same_text(key, "openai-community/gpt2") {
        return Some("gpt2");
    }
    if same_text(key, "xenova/gpt-4") {
        return Some("cl100k");
    }
    if same_text(key, "xenova/gpt-4o") {
        return Some("o200k");
    }
    if same_text(key, "meta-llama/llama-3.2-1b") {
        return Some("Llama-3.2-1B");
    }
    if same_text(key, "meta-llama/llama-4-scout-17b-16e") {
        return Some("Llama-4-Scout-17B-16E");
    }
    if same_text(key, "codellama/codellama-7b-hf") {
        return Some("CodeLlama-7b-hf");
    }
    if same_text(key, "mistralai/mistral-7b-v0.1") {
        return Some("Mistral-7B-v0.1");
    }
    if same_text(key, "mistralai/mistral-nemo-base-2407") {
        return Some("Mistral-Nemo-Base-2407");
    }
    if same_text(key, "mistralai/mixtral-8x7b-v0.1") {
        return Some("Mixtral-8x7B-v0.1");
    }
    if same_text(key, "microsoft/phi-2") {
        return Some("phi-2");
    }
    if same_text(key, "microsoft/phi-3-mini-4k-instruct") {
        return Some("Phi-3-mini-4k-instruct");
    }
    if same_text(key, "qwen/qwen2-7b") {
        return Some("Qwen2-7B");
    }
    if same_text(key, "google-t5/t5-base") {
        return Some("t5-base");
    }
    if same_text(key, "facebookai/xlm-roberta-base") {
        return Some("xlm-roberta-base");
    }
    None
}

/// Map a repository id to its pre-built repository name, whatever its case.
/// Returns `None` if no pre-built file exists for this model.
pub fn tokiers_repo_name(repo_id: &str) -> (r: Option<&'static str>)
    ensures
        match r {
            Some(s) => prebuilt_name(lowered(repo_id@)) == Some(s@),
            None => prebuilt_name(lowered(repo_id@)) is None,
        },
{
    let key = lower_text(repo_id);
    lookup_prebuilt(key.as_str())
}

/// The text in ASCII lower case.
fn lower_text(s: &str) -> (r: String)
    ensures
        r@ == lowered(s@),
{
    let mut out = String::new();
    for c in it: s.chars()
        invariant
            it.seq() == s@,
            out@ == lowered(s@).subrange(0, it.index() as int),
    {
        out.push(lower_ascii(c));
        assert(out@ =~= lowered(s@).subrange(0, it.index() as int + 1));
    }
    assert(lowered(s@).subrange(0, s@.len() as int) =~= lowered(s@));
    out
}

// ---- where a tokenizer is loaded from ----

/// A place to load a tokenizer from.
#[derive(Debug, PartialEq, Eq)]
pub enum Source {
    /// What an earlier load left beside the cached tokenizer.json.
    Compiled,
    /// The tokenizer.tkz of the repository.
    Binary,
    /// The tokenizer.tkz of a pre-built repository.
    Prebuilt(&'static str),
    /// The tokenizer.json of the repository.
    Json,
}

/// What a source is, as a number, and its pre-built repository.
pub open spec fn source_view(s: Source) -> (int, Seq<char>) {
    match s {
        Source::Compiled => (0, seq![]),
        Source::Binary => (1, seq![]),
        Source::Prebuilt(name) => (2, name@),
        Source::Json => (3, seq![]),
    }
}

/// The first place to try: a given revision is never taken from what an
/// earlier load left.
pub fn first_source(options: &FromPretrainedOptions) -> (r: Source)
    ensures
        r == if options.revision is None {
            Source::Compiled
        } else {
            Source::Binary
        },
{
    if options.revision.is_none() {
        Source::Compiled
    } else {
        Source::Binary
    }
}

/// The place to try after one that has nothing; none after the last.
pub fn next_source(source: &Source, repo_id: &str) -> (r: Option<Source>)
    ensures
        match r {
            Some(s) => match *source {
                Source::Compiled => s == Source::Binary,
                Source::Binary => source_view(s) == match prebuilt_name(lowered(repo_id@)) {
                    Some(name) => (2int, name),
                    None => (3int, seq![]),
                },
                Source::Prebuilt(_) => s == Source::Json,
                Source::Json => false,
            },
            None => *source is Json,
        },
{
    match source {
        Source::Compiled => Some(Source::Binary),
        Source::Binary => match tokiers_repo_name(repo_id) {
            Some(name) => Some(Source::Prebuilt(name)),
            None => Some(Source::Json),
        },
        Source::Prebuilt(_) => Some(Source::Json),
        Source::Json => None,
    }
}

/// How far a source is from the last one.
pub open spec fn distance(s: Source) -> int {
    3 - source_view(s).0
}

/// After each source come only later ones, so that trying them ends.
pub proof fn law_sources_end(s: Source, t: Source, key: Seq<char>)
    requires
        match s {
            Source::Compiled => t == Source::Binary,
            Source::Binary => source_view(t) == match prebuilt_name(key) {
                Some(name) => (2int, name),
                None => (3int, seq![]),
            },
            Source::Prebuilt(_) => t == Source::Json,
            Source::Json => false,
        },
    ensures
        0 <= distance(t) < distance(s),
{
}

// ---- names ----

/// The last slash in front of `n`, as the place behind it.
pub open spec fn name_start(b: Seq<u8>, n: int) -> int
    decreases n,
{
    if n <= 0 {
        0
    } else if b[n - 1] == 0x2f {
        n
    } else {
        name_start(b, n - 1)
    }
}

/// The name of a repository without its owner: what stands behind the last
/// slash.
pub fn repo_basename<'a>(repo_id: &'a str) -> (r: &'a str)
    ensures
        text::utf8(r@) == text::utf8(repo_id@).subrange(
            name_start(text::utf8(repo_id@), text::utf8(repo_id@).len() as int),
            text::utf8(repo_id@).len() as int,
        ),
{
    let b = repo_id.as_bytes();
    let n: usize = b.len();
    let mut i: usize = n;
    while i > 0 && b[i - 1] != 0x2f
        invariant
            b@ == text::utf8(repo_id@),
            n == b@.len(),
            i <= n,
            name_start(b@, n as int) == name_start(b@, i as int),
        decreases i,
    {
        i = i - 1;
    }
    proof {
        encode_utf8_valid_utf8(repo_id@);
        util::lemma_boundary_ends(b@);
        if i > 0 {
            text::lemma_lead_is_boundary(b@, i - 1);
            util::lemma_after(b@, i - 1);
        }
    }
    substr(repo_id, i, n)
}

} // verus!
