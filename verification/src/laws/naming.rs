//! The models that have a repository of their own, and what it is called.
use crate::hub;
use vstd::prelude::*;

verus! {

/// A character in ASCII lower case.
pub open spec fn lower(c: char) -> char {
    if 'A' <= c <= 'Z' {
        (c as u32 + 32) as char
    } else {
        c
    }
}

/// The key is the name in lower case, behind an owner and a slash or alone.
pub open spec fn named_after(key: Seq<char>, name: Seq<char>) -> bool {
    let n = key.len() - name.len();
    &&& n >= 0
    &&& n > 0 ==> key[n - 1] == '/'
    &&& forall|i: int| 0 <= i < name.len() ==> key[n + i] == lower(#[trigger] name[i])
}

/// A repository is called as the model is, without its owner; but for two
/// that are called by their encoding.
pub proof fn law_repositories_are_named_after_models(key: Seq<char>)
    ensures
        hub::prebuilt_name(key) matches Some(name) ==> {
            ||| named_after(key, name)
            ||| key == "xenova/gpt-4"@ && name == "cl100k"@
            ||| key == "xenova/gpt-4o"@ && name == "o200k"@
        },
{
    lemma_names_a();
    lemma_names_b();
    lemma_names_c();
    lemma_names_d();
    lemma_names_e();
    lemma_names_f();
}

proof fn lemma_names_a()
    ensures
        named_after("alibaba-nlp/gte-qwen2-7b-instruct"@, "gte-Qwen2-7B-instruct"@),
        named_after("baai/bge-base-en-v1.5"@, "bge-base-en-v1.5"@),
        named_after("baai/bge-en-icl"@, "bge-en-icl"@),
        named_after("baai/bge-large-en-v1.5"@, "bge-large-en-v1.5"@),
        named_after("baai/bge-small-en-v1.5"@, "bge-small-en-v1.5"@),
        named_after("cohere/cohere-embed-english-v3.0"@, "Cohere-embed-english-v3.0"@),
        named_after("cohere/cohere-embed-english-light-v3.0"@, "Cohere-embed-english-light-v3.0"@),
        named_after("cohere/cohere-embed-multilingual-v3.0"@, "Cohere-embed-multilingual-v3.0"@),
        named_after("cohere/cohere-embed-multilingual-light-v3.0"@, "Cohere-embed-multilingual-light-v3.0"@),
        named_after("intfloat/e5-small-v2"@, "e5-small-v2"@),
{
    assert(named_after("alibaba-nlp/gte-qwen2-7b-instruct"@, "gte-Qwen2-7B-instruct"@)) by {
        reveal_strlit("alibaba-nlp/gte-qwen2-7b-instruct");
        reveal_strlit("gte-Qwen2-7B-instruct");
    }
    assert(named_after("baai/bge-base-en-v1.5"@, "bge-base-en-v1.5"@)) by {
        reveal_strlit("baai/bge-base-en-v1.5");
        reveal_strlit("bge-base-en-v1.5");
    }
    assert(named_after("baai/bge-en-icl"@, "bge-en-icl"@)) by {
        reveal_strlit("baai/bge-en-icl");
        reveal_strlit("bge-en-icl");
    }
    assert(named_after("baai/bge-large-en-v1.5"@, "bge-large-en-v1.5"@)) by {
        reveal_strlit("baai/bge-large-en-v1.5");
        reveal_strlit("bge-large-en-v1.5");
    }
    assert(named_after("baai/bge-small-en-v1.5"@, "bge-small-en-v1.5"@)) by {
        reveal_strlit("baai/bge-small-en-v1.5");
        reveal_strlit("bge-small-en-v1.5");
    }
    assert(named_after("cohere/cohere-embed-english-v3.0"@, "Cohere-embed-english-v3.0"@)) by {
        reveal_strlit("cohere/cohere-embed-english-v3.0");
        reveal_strlit("Cohere-embed-english-v3.0");
    }
    assert(named_after("cohere/cohere-embed-english-light-v3.0"@, "Cohere-embed-english-light-v3.0"@)) by {
        reveal_strlit("cohere/cohere-embed-english-light-v3.0");
        reveal_strlit("Cohere-embed-english-light-v3.0");
    }
    assert(named_after("cohere/cohere-embed-multilingual-v3.0"@, "Cohere-embed-multilingual-v3.0"@)) by {
        reveal_strlit("cohere/cohere-embed-multilingual-v3.0");
        reveal_strlit("Cohere-embed-multilingual-v3.0");
    }
    assert(named_after("cohere/cohere-embed-multilingual-light-v3.0"@, "Cohere-embed-multilingual-light-v3.0"@)) by {
        reveal_strlit("cohere/cohere-embed-multilingual-light-v3.0");
        reveal_strlit("Cohere-embed-multilingual-light-v3.0");
    }
    assert(named_after("intfloat/e5-small-v2"@, "e5-small-v2"@)) by {
        reveal_strlit("intfloat/e5-small-v2");
        reveal_strlit("e5-small-v2");
    }
}

proof fn lemma_names_b()
    ensures
        named_after("intfloat/e5-base-v2"@, "e5-base-v2"@),
        named_after("intfloat/e5-large-v2"@, "e5-large-v2"@),
        named_after("jinaai/jina-embeddings-v2-base-en"@, "jina-embeddings-v2-base-en"@),
        named_after("jinaai/jina-embeddings-v2-base-code"@, "jina-embeddings-v2-base-code"@),
        named_after("jinaai/jina-embeddings-v3"@, "jina-embeddings-v3"@),
        named_after("jinaai/jina-embeddings-v4"@, "jina-embeddings-v4"@),
        named_after("mixedbread-ai/mxbai-embed-large-v1"@, "mxbai-embed-large-v1"@),
        named_after("mixedbread-ai/mxbai-embed-2d-large-v1"@, "mxbai-embed-2d-large-v1"@),
        named_after("mixedbread-ai/mxbai-embed-xsmall-v1"@, "mxbai-embed-xsmall-v1"@),
        named_after("mixedbread-ai/deepset-mxbai-embed-de-large-v1"@, "deepset-mxbai-embed-de-large-v1"@),
{
    assert(named_after("intfloat/e5-base-v2"@, "e5-base-v2"@)) by {
        reveal_strlit("intfloat/e5-base-v2");
        reveal_strlit("e5-base-v2");
    }
    assert(named_after("intfloat/e5-large-v2"@, "e5-large-v2"@)) by {
        reveal_strlit("intfloat/e5-large-v2");
        reveal_strlit("e5-large-v2");
    }
    assert(named_after("jinaai/jina-embeddings-v2-base-en"@, "jina-embeddings-v2-base-en"@)) by {
        reveal_strlit("jinaai/jina-embeddings-v2-base-en");
        reveal_strlit("jina-embeddings-v2-base-en");
    }
    assert(named_after("jinaai/jina-embeddings-v2-base-code"@, "jina-embeddings-v2-base-code"@)) by {
        reveal_strlit("jinaai/jina-embeddings-v2-base-code");
        reveal_strlit("jina-embeddings-v2-base-code");
    }
    assert(named_after("jinaai/jina-embeddings-v3"@, "jina-embeddings-v3"@)) by {
        reveal_strlit("jinaai/jina-embeddings-v3");
        reveal_strlit("jina-embeddings-v3");
    }
    assert(named_after("jinaai/jina-embeddings-v4"@, "jina-embeddings-v4"@)) by {
        reveal_strlit("jinaai/jina-embeddings-v4");
        reveal_strlit("jina-embeddings-v4");
    }
    assert(named_after("mixedbread-ai/mxbai-embed-large-v1"@, "mxbai-embed-large-v1"@)) by {
        reveal_strlit("mixedbread-ai/mxbai-embed-large-v1");
        reveal_strlit("mxbai-embed-large-v1");
    }
    assert(named_after("mixedbread-ai/mxbai-embed-2d-large-v1"@, "mxbai-embed-2d-large-v1"@)) by {
        reveal_strlit("mixedbread-ai/mxbai-embed-2d-large-v1");
        reveal_strlit("mxbai-embed-2d-large-v1");
    }
    assert(named_after("mixedbread-ai/mxbai-embed-xsmall-v1"@, "mxbai-embed-xsmall-v1"@)) by {
        reveal_strlit("mixedbread-ai/mxbai-embed-xsmall-v1");
        reveal_strlit("mxbai-embed-xsmall-v1");
    }
    assert(named_after("mixedbread-ai/deepset-mxbai-embed-de-large-v1"@, "deepset-mxbai-embed-de-large-v1"@)) by {
        reveal_strlit("mixedbread-ai/deepset-mxbai-embed-de-large-v1");
        reveal_strlit("deepset-mxbai-embed-de-large-v1");
    }
}

proof fn lemma_names_c()
    ensures
        named_after("nomic-ai/nomic-embed-text-v1"@, "nomic-embed-text-v1"@),
        named_after("qwen/qwen3-embedding-0.6b"@, "Qwen3-Embedding-0.6B"@),
        named_after("qwen/qwen3-embedding-4b"@, "Qwen3-Embedding-4B"@),
        named_after("qwen/qwen3-embedding-8b"@, "Qwen3-Embedding-8B"@),
        named_after("sentence-transformers/all-minilm-l6-v2"@, "all-MiniLM-L6-v2"@),
        named_after("sentence-transformers/all-minilm-l12-v2"@, "all-MiniLM-L12-v2"@),
        named_after("sentence-transformers/all-mpnet-base-v2"@, "all-mpnet-base-v2"@),
        named_after("thenlper/gte-small"@, "gte-small"@),
        named_after("thenlper/gte-base"@, "gte-base"@),
        named_after("thenlper/gte-large"@, "gte-large"@),
{
    assert(named_after("nomic-ai/nomic-embed-text-v1"@, "nomic-embed-text-v1"@)) by {
        reveal_strlit("nomic-ai/nomic-embed-text-v1");
        reveal_strlit("nomic-embed-text-v1");
    }
    assert(named_after("qwen/qwen3-embedding-0.6b"@, "Qwen3-Embedding-0.6B"@)) by {
        reveal_strlit("qwen/qwen3-embedding-0.6b");
        reveal_strlit("Qwen3-Embedding-0.6B");
    }
    assert(named_after("qwen/qwen3-embedding-4b"@, "Qwen3-Embedding-4B"@)) by {
        reveal_strlit("qwen/qwen3-embedding-4b");
        reveal_strlit("Qwen3-Embedding-4B");
    }
    assert(named_after("qwen/qwen3-embedding-8b"@, "Qwen3-Embedding-8B"@)) by {
        reveal_strlit("qwen/qwen3-embedding-8b");
        reveal_strlit("Qwen3-Embedding-8B");
    }
    assert(named_after("sentence-transformers/all-minilm-l6-v2"@, "all-MiniLM-L6-v2"@)) by {
        reveal_strlit("sentence-transformers/all-minilm-l6-v2");
        reveal_strlit("all-MiniLM-L6-v2");
    }
    assert(named_after("sentence-transformers/all-minilm-l12-v2"@, "all-MiniLM-L12-v2"@)) by {
        reveal_strlit("sentence-transformers/all-minilm-l12-v2");
        reveal_strlit("all-MiniLM-L12-v2");
    }
    assert(named_after("sentence-transformers/all-mpnet-base-v2"@, "all-mpnet-base-v2"@)) by {
        reveal_strlit("sentence-transformers/all-mpnet-base-v2");
        reveal_strlit("all-mpnet-base-v2");
    }
    assert(named_after("thenlper/gte-small"@, "gte-small"@)) by {
        reveal_strlit("thenlper/gte-small");
        reveal_strlit("gte-small");
    }
    assert(named_after("thenlper/gte-base"@, "gte-base"@)) by {
        reveal_strlit("thenlper/gte-base");
        reveal_strlit("gte-base");
    }
    assert(named_after("thenlper/gte-large"@, "gte-large"@)) by {
        reveal_strlit("thenlper/gte-large");
        reveal_strlit("gte-large");
    }
}

proof fn lemma_names_d()
    ensures
        named_after("voyageai/voyage-3"@, "voyage-3"@),
        named_after("voyageai/voyage-3-lite"@, "voyage-3-lite"@),
        named_after("voyageai/voyage-3-large"@, "voyage-3-large"@),
        named_after("voyageai/voyage-3.5"@, "voyage-3.5"@),
        named_after("voyageai/voyage-3.5-lite"@, "voyage-3.5-lite"@),
        named_after("voyageai/voyage-code-2"@, "voyage-code-2"@),
        named_after("voyageai/voyage-code-3"@, "voyage-code-3"@),
        named_after("voyageai/voyage-finance-2"@, "voyage-finance-2"@),
        named_after("voyageai/voyage-law-2"@, "voyage-law-2"@),
        named_after("voyageai/voyage-multilingual-2"@, "voyage-multilingual-2"@),
{
    assert(named_after("voyageai/voyage-3"@, "voyage-3"@)) by {
        reveal_strlit("voyageai/voyage-3");
        reveal_strlit("voyage-3");
    }
    assert(named_after("voyageai/voyage-3-lite"@, "voyage-3-lite"@)) by {
        reveal_strlit("voyageai/voyage-3-lite");
        reveal_strlit("voyage-3-lite");
    }
    assert(named_after("voyageai/voyage-3-large"@, "voyage-3-large"@)) by {
        reveal_strlit("voyageai/voyage-3-large");
        reveal_strlit("voyage-3-large");
    }
    assert(named_after("voyageai/voyage-3.5"@, "voyage-3.5"@)) by {
        reveal_strlit("voyageai/voyage-3.5");
        reveal_strlit("voyage-3.5");
    }
    assert(named_after("voyageai/voyage-3.5-lite"@, "voyage-3.5-lite"@)) by {
        reveal_strlit("voyageai/voyage-3.5-lite");
        reveal_strlit("voyage-3.5-lite");
    }
    assert(named_after("voyageai/voyage-code-2"@, "voyage-code-2"@)) by {
        reveal_strlit("voyageai/voyage-code-2");
        reveal_strlit("voyage-code-2");
    }
    assert(named_after("voyageai/voyage-code-3"@, "voyage-code-3"@)) by {
        reveal_strlit("voyageai/voyage-code-3");
        reveal_strlit("voyage-code-3");
    }
    assert(named_after("voyageai/voyage-finance-2"@, "voyage-finance-2"@)) by {
        reveal_strlit("voyageai/voyage-finance-2");
        reveal_strlit("voyage-finance-2");
    }
    assert(named_after("voyageai/voyage-law-2"@, "voyage-law-2"@)) by {
        reveal_strlit("voyageai/voyage-law-2");
        reveal_strlit("voyage-law-2");
    }
    assert(named_after("voyageai/voyage-multilingual-2"@, "voyage-multilingual-2"@)) by {
        reveal_strlit("voyageai/voyage-multilingual-2");
        reveal_strlit("voyage-multilingual-2");
    }
}

proof fn lemma_names_e()
    ensures
        named_after("voyageai/voyage-multimodal-3"@, "voyage-multimodal-3"@),
        named_after("cross-encoder/ms-marco-minilm-l-4-v2"@, "ms-marco-MiniLM-L-4-v2"@),
        named_after("cross-encoder/ms-marco-minilm-l-6-v2"@, "ms-marco-MiniLM-L-6-v2"@),
        named_after("bert-base-uncased"@, "bert-base-uncased"@),
        named_after("facebookai/roberta-base"@, "roberta-base"@),
        named_after("answerdotai/modernbert-base"@, "ModernBERT-base"@),
        named_after("openai-community/gpt2"@, "gpt2"@),
        named_after("meta-llama/llama-3.2-1b"@, "Llama-3.2-1B"@),
        named_after("meta-llama/llama-4-scout-17b-16e"@, "Llama-4-Scout-17B-16E"@),
        named_after("codellama/codellama-7b-hf"@, "CodeLlama-7b-hf"@),
{
    assert(named_after("voyageai/voyage-multimodal-3"@, "voyage-multimodal-3"@)) by {
        reveal_strlit("voyageai/voyage-multimodal-3");
        reveal_strlit("voyage-multimodal-3");
    }
    assert(named_after("cross-encoder/ms-marco-minilm-l-4-v2"@, "ms-marco-MiniLM-L-4-v2"@)) by {
        reveal_strlit("cross-encoder/ms-marco-minilm-l-4-v2");
        reveal_strlit("ms-marco-MiniLM-L-4-v2");
    }
    assert(named_after("cross-encoder/ms-marco-minilm-l-6-v2"@, "ms-marco-MiniLM-L-6-v2"@)) by {
        reveal_strlit("cross-encoder/ms-marco-minilm-l-6-v2");
        reveal_strlit("ms-marco-MiniLM-L-6-v2");
    }
    assert(named_after("bert-base-uncased"@, "bert-base-uncased"@)) by {
        reveal_strlit("bert-base-uncased");
        reveal_strlit("bert-base-uncased");
    }
    assert(named_after("facebookai/roberta-base"@, "roberta-base"@)) by {
        reveal_strlit("facebookai/roberta-base");
        reveal_strlit("roberta-base");
    }
    assert(named_after("answerdotai/modernbert-base"@, "ModernBERT-base"@)) by {
        reveal_strlit("answerdotai/modernbert-base");
        reveal_strlit("ModernBERT-base");
    }
    assert(named_after("openai-community/gpt2"@, "gpt2"@)) by {
        reveal_strlit("openai-community/gpt2");
        reveal_strlit("gpt2");
    }
    assert(named_after("meta-llama/llama-3.2-1b"@, "Llama-3.2-1B"@)) by {
        reveal_strlit("meta-llama/llama-3.2-1b");
        reveal_strlit("Llama-3.2-1B");
    }
    assert(named_after("meta-llama/llama-4-scout-17b-16e"@, "Llama-4-Scout-17B-16E"@)) by {
        reveal_strlit("meta-llama/llama-4-scout-17b-16e");
        reveal_strlit("Llama-4-Scout-17B-16E");
    }
    assert(named_after("codellama/codellama-7b-hf"@, "CodeLlama-7b-hf"@)) by {
        reveal_strlit("codellama/codellama-7b-hf");
        reveal_strlit("CodeLlama-7b-hf");
    }
}

proof fn lemma_names_f()
    ensures
        named_after("mistralai/mistral-7b-v0.1"@, "Mistral-7B-v0.1"@),
        named_after("mistralai/mistral-nemo-base-2407"@, "Mistral-Nemo-Base-2407"@),
        named_after("mistralai/mixtral-8x7b-v0.1"@, "Mixtral-8x7B-v0.1"@),
        named_after("microsoft/phi-2"@, "phi-2"@),
        named_after("microsoft/phi-3-mini-4k-instruct"@, "Phi-3-mini-4k-instruct"@),
        named_after("qwen/qwen2-7b"@, "Qwen2-7B"@),
        named_after("google-t5/t5-base"@, "t5-base"@),
        named_after("facebookai/xlm-roberta-base"@, "xlm-roberta-base"@),
{
    assert(named_after("mistralai/mistral-7b-v0.1"@, "Mistral-7B-v0.1"@)) by {
        reveal_strlit("mistralai/mistral-7b-v0.1");
        reveal_strlit("Mistral-7B-v0.1");
    }
    assert(named_after("mistralai/mistral-nemo-base-2407"@, "Mistral-Nemo-Base-2407"@)) by {
        reveal_strlit("mistralai/mistral-nemo-base-2407");
        reveal_strlit("Mistral-Nemo-Base-2407");
    }
    assert(named_after("mistralai/mixtral-8x7b-v0.1"@, "Mixtral-8x7B-v0.1"@)) by {
        reveal_strlit("mistralai/mixtral-8x7b-v0.1");
        reveal_strlit("Mixtral-8x7B-v0.1");
    }
    assert(named_after("microsoft/phi-2"@, "phi-2"@)) by {
        reveal_strlit("microsoft/phi-2");
        reveal_strlit("phi-2");
    }
    assert(named_after("microsoft/phi-3-mini-4k-instruct"@, "Phi-3-mini-4k-instruct"@)) by {
        reveal_strlit("microsoft/phi-3-mini-4k-instruct");
        reveal_strlit("Phi-3-mini-4k-instruct");
    }
    assert(named_after("qwen/qwen2-7b"@, "Qwen2-7B"@)) by {
        reveal_strlit("qwen/qwen2-7b");
        reveal_strlit("Qwen2-7B");
    }
    assert(named_after("google-t5/t5-base"@, "t5-base"@)) by {
        reveal_strlit("google-t5/t5-base");
        reveal_strlit("t5-base");
    }
    assert(named_after("facebookai/xlm-roberta-base"@, "xlm-roberta-base"@)) by {
        reveal_strlit("facebookai/xlm-roberta-base");
        reveal_strlit("xlm-roberta-base");
    }
}

} // verus!
