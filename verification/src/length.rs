//! The pluggable size metric: raw character count, or a sub-word token
//! count from one of two tokenizer families, resolved once at
//! construction into a single `LengthFunction` value.

use vstd::prelude::*;
use vstd::string::StrSliceExecFns;
use vstd::string::StringExecFns;
use crate::text::str_eq;

verus! {

#[verifier::external_type_specification]
#[verifier::external_body]
pub struct ExCoreBPE(tiktoken_rs::CoreBPE);

#[verifier::external_type_specification]
#[verifier::external_body]
pub struct ExTokenizer(tokenizers::tokenizer::Tokenizer);

/// Names the number of tokens that tiktoken's `CoreBPE::encode_ordinary`
/// yields for a text: a pure function of the encoder and the characters.
pub uninterp spec fn bpe_token_count(bpe: tiktoken_rs::CoreBPE, s: Seq<char>) -> nat;

/// Names the encoders whose byte-level vocabulary is complete and whose
/// split pattern matches every text, so that encoding cannot panic or
/// fail: the embedded encoders that this crate's loaders build. An
/// encoder assembled by hand through `CoreBPE::new` has no such
/// guarantee and is not admitted.
pub uninterp spec fn complete_bpe(bpe: tiktoken_rs::CoreBPE) -> bool;

/// Names the tokenizers whose encoding is a pure function of the
/// tokenizer and the text. This is a trusted hypothesis a caller takes
/// on when injecting a tokenizer: a BPE model deserialized with a
/// merge-dropout probability draws random numbers during encoding, and
/// nothing is claimed of its counts.
pub uninterp spec fn deterministic_tokenizer(t: tokenizers::tokenizer::Tokenizer) -> bool;

/// Names the number of tokens that a Hugging Face tokenizer's `encode`
/// yields for a text, counting a failed encode as zero: a pure function
/// of the tokenizer and the characters.
pub uninterp spec fn hf_token_count(t: tokenizers::tokenizer::Tokenizer, s: Seq<char>) -> nat;

/// A caller-supplied size metric: the custom slot among the length
/// functions. The struct is opaque because a boxed closure is a type
/// the verifier refuses to look into.
#[verifier::external_body]
pub struct CustomLength {
    f: Box<dyn Fn(&str) -> usize + Send + Sync>,
}

/// Names the count that a caller-supplied measure yields for a text.
pub uninterp spec fn custom_count_of(c: CustomLength, s: Seq<char>) -> nat;

/// Names the measures that are pure functions of the text: the contract
/// spec gives the injected length function. This is a trusted
/// hypothesis the caller takes on when supplying a closure; of a
/// stateful or randomized measure nothing is claimed.
pub uninterp spec fn pure_custom_measure(c: CustomLength) -> bool;

impl CustomLength {
    /// Wraps a caller-supplied measure; the box is the only thing built.
    #[verifier::external_body]
    pub fn new<F: Fn(&str) -> usize + Send + Sync + 'static>(f: F) -> CustomLength {
        CustomLength { f: Box::new(f) }
    }

    /// Relies on the injected callable: its count is tied to its name
    /// only under the trusted hypothesis that it is a pure function of
    /// the text.
    #[verifier::external_body]
    fn measure_text(&self, s: &str) -> (r: usize)
        ensures
            pure_custom_measure(*self) ==> r as nat == custom_count_of(*self, s@),
    {
        (self.f)(s)
    }
}

/// The size metric a splitter measures text with: raw character count,
/// a tiktoken BPE token count, a Hugging Face tokenizer token count, or
/// a caller-supplied measure.
pub enum LengthFunction {
    StrLen,
    TikToken(tiktoken_rs::CoreBPE),
    HuggingFace(tokenizers::tokenizer::Tokenizer),
    Custom(CustomLength),
}

/// A length function the splitter may measure with: an embedded
/// tiktoken encoder, or a tokenizer taken to encode deterministically.
pub open spec fn lf_wf(lf: LengthFunction) -> bool {
    match lf {
        LengthFunction::StrLen => true,
        LengthFunction::TikToken(bpe) => complete_bpe(bpe),
        LengthFunction::HuggingFace(t) => deterministic_tokenizer(t),
        LengthFunction::Custom(c) => pure_custom_measure(c),
    }
}

/// The size of a text under a given length function.
pub open spec fn measure(lf: LengthFunction, s: Seq<char>) -> nat {
    match lf {
        LengthFunction::StrLen => s.len(),
        LengthFunction::TikToken(bpe) => bpe_token_count(bpe, s),
        LengthFunction::HuggingFace(t) => hf_token_count(t, s),
        LengthFunction::Custom(c) => custom_count_of(c, s),
    }
}

/// Relies on tiktoken's `CoreBPE::encode_ordinary`: encodes the text
/// without special-token handling; the returned token count is a pure
/// function of the encoder and the text. Only a complete embedded
/// encoder is admitted: with an incomplete hand-built vocabulary the
/// byte-pair merge can panic on a byte it does not know.
#[verifier::external_body]
fn bpe_count(bpe: &tiktoken_rs::CoreBPE, s: &str) -> (r: usize)
    requires
        complete_bpe(*bpe),
    ensures
        r as nat == bpe_token_count(*bpe, s@),
{
    bpe.encode_ordinary(s).len()
}

/// Relies on tokenizers' `Tokenizer::encode` and `Encoding::len`: the
/// token count of the encoding, with a failed encode counted as zero
/// tokens. The count is tied to its name only under the trusted
/// hypothesis that the tokenizer encodes deterministically; of a
/// stochastic tokenizer (BPE merge dropout) nothing is claimed.
#[verifier::external_body]
fn hf_count(t: &tokenizers::tokenizer::Tokenizer, s: &str) -> (r: usize)
    ensures
        deterministic_tokenizer(*t) ==> r as nat == hf_token_count(*t, s@),
{
    t.encode(s, false).map(|e| e.len()).unwrap_or(0)
}

/// The size of `s` under `lf`; delegates to the selected metric.
pub fn measure_exec(lf: &LengthFunction, s: &str) -> (r: usize)
    requires
        lf_wf(*lf),
    ensures
        r as nat == measure(*lf, s@),
{
    match lf {
        LengthFunction::StrLen => s.unicode_len(),
        LengthFunction::TikToken(bpe) => bpe_count(bpe, s),
        LengthFunction::HuggingFace(t) => hf_count(t, s),
        LengthFunction::Custom(c) => c.measure_text(s),
    }
}

/// Why a splitter could not be constructed.
pub enum SplitterError {
    UnknownTokenizerKind(String),
    UnknownTokenizerSubkind(String),
    TokenizerLoad(String),
    OverlapTooLarge,
}

impl SplitterError {
    /// A human-readable description naming the offending value.
    pub fn message(&self) -> (r: String)
        ensures
            match self {
                SplitterError::UnknownTokenizerKind(k) => r@ == "Unknown tokenizer kind: "@ + k@,
                SplitterError::UnknownTokenizerSubkind(s) => r@ == "Unknown tokenizer subkind: "@
                    + s@,
                SplitterError::TokenizerLoad(m) => r@ == m@,
                SplitterError::OverlapTooLarge => r@
                    == "chunk_overlap must be smaller than chunk_size"@,
            },
    {
        match self {
            SplitterError::UnknownTokenizerKind(k) => {
                let mut r = String::from_str("Unknown tokenizer kind: ");
                r.append(k.as_str());
                r
            },
            SplitterError::UnknownTokenizerSubkind(s) => {
                let mut r = String::from_str("Unknown tokenizer subkind: ");
                r.append(s.as_str());
                r
            },
            SplitterError::TokenizerLoad(m) => {
                let mut r = String::new();
                r.append(m.as_str());
                r
            },
            SplitterError::OverlapTooLarge => String::from_str(
                "chunk_overlap must be smaller than chunk_size",
            ),
        }
    }
}

/// The tiktoken encodings offered by name.
pub enum TiktokenEncoding {
    Cl100kBase,
    P50kBase,
    P50kEdit,
    R50kBase,
}

/// What a (kind, subkind) pair of tokenizer names selects: the raw
/// character count, a named tiktoken encoding, or a Hugging Face
/// tokenizer to be loaded from the file the subkind names.
pub enum TokenizerSelection {
    RawLen,
    Tiktoken(TiktokenEncoding),
    HuggingFaceFile,
}

/// The tokenizer kinds and tiktoken subkinds that are understood.
pub open spec fn is_known_kind(kind: Seq<char>) -> bool {
    kind == "len"@ || kind == "tiktoken"@ || kind == "openai"@ || kind == "huggingface"@
}

pub open spec fn is_tiktoken_kind(kind: Seq<char>) -> bool {
    kind == "tiktoken"@ || kind == "openai"@
}

pub open spec fn tiktoken_subkind_of(subkind: Seq<char>) -> Option<TiktokenEncoding> {
    if subkind == ""@ || subkind == "cl100k_base"@ {
        Some(TiktokenEncoding::Cl100kBase)
    } else if subkind == "p50k_base"@ {
        Some(TiktokenEncoding::P50kBase)
    } else if subkind == "p50k_edit"@ {
        Some(TiktokenEncoding::P50kEdit)
    } else if subkind == "r50k_base"@ {
        Some(TiktokenEncoding::R50kBase)
    } else {
        None
    }
}

/// Resolves a tokenizer kind and subkind to a selection, rejecting an
/// unknown kind, and an unknown subkind of the tiktoken family, each
/// with an error naming the offending value.
pub fn select_tokenizer(kind: &str, subkind: &str) -> (r: Result<
    TokenizerSelection,
    SplitterError,
>)
    ensures
        match r {
            Ok(TokenizerSelection::RawLen) => kind@ == "len"@,
            Ok(TokenizerSelection::Tiktoken(e)) => is_tiktoken_kind(kind@) && tiktoken_subkind_of(
                subkind@,
            ) == Some(e),
            Ok(TokenizerSelection::HuggingFaceFile) => kind@ == "huggingface"@,
            Err(SplitterError::UnknownTokenizerKind(k)) => k@ == kind@ && !is_known_kind(kind@),
            Err(SplitterError::UnknownTokenizerSubkind(s)) => s@ == subkind@ && is_tiktoken_kind(
                kind@,
            ) && tiktoken_subkind_of(subkind@) is None,
            Err(_) => false,
        },
{
    if str_eq(kind, "len") {
        Ok(TokenizerSelection::RawLen)
    } else if str_eq(kind, "tiktoken") || str_eq(kind, "openai") {
        if str_eq(subkind, "") || str_eq(subkind, "cl100k_base") {
            Ok(TokenizerSelection::Tiktoken(TiktokenEncoding::Cl100kBase))
        } else if str_eq(subkind, "p50k_base") {
            Ok(TokenizerSelection::Tiktoken(TiktokenEncoding::P50kBase))
        } else if str_eq(subkind, "p50k_edit") {
            Ok(TokenizerSelection::Tiktoken(TiktokenEncoding::P50kEdit))
        } else if str_eq(subkind, "r50k_base") {
            Ok(TokenizerSelection::Tiktoken(TiktokenEncoding::R50kBase))
        } else {
            Err(SplitterError::UnknownTokenizerSubkind(String::from_str(subkind)))
        }
    } else if str_eq(kind, "huggingface") {
        Ok(TokenizerSelection::HuggingFaceFile)
    } else {
        Err(SplitterError::UnknownTokenizerKind(String::from_str(kind)))
    }
}

/// Relies on tiktoken's `cl100k_base`: builds the cl100k_base encoder
/// from the byte-complete vocabulary embedded in the crate; on failure
/// yields the error text.
#[verifier::external_body]
fn load_cl100k_base() -> (r: Result<tiktoken_rs::CoreBPE, String>)
    ensures
        r matches Ok(b) ==> complete_bpe(b),
{
    tiktoken_rs::cl100k_base().map_err(|e| format!("{}", e))
}

/// Relies on tiktoken's `p50k_base`, as `load_cl100k_base` does.
#[verifier::external_body]
fn load_p50k_base() -> (r: Result<tiktoken_rs::CoreBPE, String>)
    ensures
        r matches Ok(b) ==> complete_bpe(b),
{
    tiktoken_rs::p50k_base().map_err(|e| format!("{}", e))
}

/// Relies on tiktoken's `p50k_edit`, as `load_cl100k_base` does.
#[verifier::external_body]
fn load_p50k_edit() -> (r: Result<tiktoken_rs::CoreBPE, String>)
    ensures
        r matches Ok(b) ==> complete_bpe(b),
{
    tiktoken_rs::p50k_edit().map_err(|e| format!("{}", e))
}

/// Relies on tiktoken's `r50k_base`, as `load_cl100k_base` does.
#[verifier::external_body]
fn load_r50k_base() -> (r: Result<tiktoken_rs::CoreBPE, String>)
    ensures
        r matches Ok(b) ==> complete_bpe(b),
{
    tiktoken_rs::r50k_base().map_err(|e| format!("{}", e))
}

/// Turns the outcome of loading a tiktoken encoder into a length
/// function, carrying a load failure over as a construction error.
pub fn length_function_from_load(res: Result<tiktoken_rs::CoreBPE, String>) -> (r: Result<
    LengthFunction,
    SplitterError,
>)
    requires
        res matches Ok(b) ==> complete_bpe(b),
    ensures
        match res {
            Ok(bpe) => r == Ok::<LengthFunction, SplitterError>(LengthFunction::TikToken(bpe)),
            Err(m) => r == Err::<LengthFunction, SplitterError>(SplitterError::TokenizerLoad(m)),
        },
{
    match res {
        Ok(bpe) => Ok(LengthFunction::TikToken(bpe)),
        Err(m) => Err(SplitterError::TokenizerLoad(m)),
    }
}

/// Loads the named tiktoken encoding and wraps it as a length function;
/// fails only when the encoder itself fails to load, and then with the
/// loader's error text.
pub fn length_function_for_tiktoken(enc: &TiktokenEncoding) -> (r: Result<
    LengthFunction,
    SplitterError,
>)
    ensures
        match r {
            Ok(lf) => lf is TikToken && lf_wf(lf),
            Err(e) => e is TokenizerLoad,
        },
{
    match enc {
        TiktokenEncoding::Cl100kBase => length_function_from_load(load_cl100k_base()),
        TiktokenEncoding::P50kBase => length_function_from_load(load_p50k_base()),
        TiktokenEncoding::P50kEdit => length_function_from_load(load_p50k_edit()),
        TiktokenEncoding::R50kBase => length_function_from_load(load_r50k_base()),
    }
}

} // verus!
