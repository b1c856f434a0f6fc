//! The orchestrator: seeds a result, lets fallbacks and a placeholder compete
//! for it, and finally replaces it with the AST of the input text. Every
//! intermediate value passes through the stagnation tracker under its own slot.
use vstd::prelude::*;
use vstd::utf8::{decode_utf8, valid_utf8};
use crate::text::{chars_of, is_blank};
use crate::tokenizer::{tokenize_even_checked, tokens_of, tokens_text};
use crate::tracker::{ensure_even, lemma_pad_even, pad_even, StagnationMap};
use crate::tree::{
    build_ast_from_tokens, lemma_builder_reads_tokenizer_output, node_json, numbered,
    rust_inline_parse, tags_of,
};

verus! {

#[derive(Clone, Copy, Debug, PartialEq, Eq, Structural)]
pub enum PipelineError {
    /// The input is missing, unreadable, or not UTF-8.
    InputUnavailable,
}

/// Relies on `String::from_utf8`: `Ok` exactly for valid UTF-8, holding the
/// decoded characters.
#[verifier::external_body]
fn decode_text(bytes: Vec<u8>) -> (r: Option<String>)
    ensures
        r matches Some(s) ==> valid_utf8(bytes@) && s@ == decode_utf8(bytes@),
        r is None ==> !valid_utf8(bytes@),
{
    String::from_utf8(bytes).ok()
}

/// `tokenize_even_checked` on a byte buffer; bytes that are not UTF-8 are
/// refused with `InputUnavailable`.
pub fn token_bridge_ptr(source: Vec<u8>) -> (r: Result<String, PipelineError>)
    ensures
        match r {
            Ok(s) => valid_utf8(source@) && s@ == tokens_text(decode_utf8(source@)),
            Err(e) => !valid_utf8(source@) && e == PipelineError::InputUnavailable,
        },
{
    match decode_text(source) {
        Some(text) => Ok(tokenize_even_checked(text.as_str())),
        None => Err(PipelineError::InputUnavailable),
    }
}

/// The payload written to the remote fallback service, padded to even length.
pub fn probe_payload() -> (r: String)
    ensures
        r@ == pad_even("\n<<END>>\n"@),
{
    ensure_even("\n<<END>>\n")
}

/// The serialized AST of `text`, padded to even length.
pub open spec fn ast_json_of(text: Seq<char>) -> Seq<char> {
    pad_even(node_json("Program"@, numbered(tags_of(tokens_of(text)))))
}

/// The outcome of a run on the given input bytes.
pub open spec fn run_result(input: Option<Vec<u8>>) -> Result<Seq<char>, PipelineError> {
    match input {
        Some(b) => if valid_utf8(b@) {
            Ok(ast_json_of(decode_utf8(b@)))
        } else {
            Err(PipelineError::InputUnavailable)
        },
        None => Err(PipelineError::InputUnavailable),
    }
}

/// A run whose input is readable text completes with the AST of that text,
/// whatever the remote fallback did: its result does not depend on it.
pub proof fn lemma_run_completes_without_fallback(input: Vec<u8>)
    requires
        valid_utf8(input@),
    ensures
        run_result(Some(input)) == Ok::<Seq<char>, PipelineError>(ast_json_of(decode_utf8(input@))),
{
}

/// Tracks `v` under a slot that has not been written yet.
fn track(tracker: &mut StagnationMap, key: &str, v: &str) -> (r: String)
    requires
        old(tracker).wf(),
        !old(tracker)@.contains_key(key@),
    ensures
        final(tracker).wf(),
        final(tracker)@ == old(tracker)@.insert(key@, r@),
        r@ == pad_even(v@),
{
    tracker.update(key, v)
}

/// Runs one pipeline. `remote` is what the remote fallback service sent, or
/// `None` where it could not be reached; `input` is the content of the input
/// source, or `None` where it could not be read. Whatever the fallback did,
/// the result is the AST of the input text; an input that is missing or not
/// UTF-8 gives `InputUnavailable`.
pub fn run_pipeline(remote: Option<Vec<u8>>, input: Option<Vec<u8>>) -> (r: Result<
    String,
    PipelineError,
>)
    ensures
        match r {
            Ok(s) => run_result(input) == Ok::<Seq<char>, PipelineError>(s@),
            Err(e) => run_result(input) == Err::<Seq<char>, PipelineError>(e),
        },
{
    // The slot keys are pairwise distinct, so each slot is written once.
    proof {
        reveal_strlit("seed");
        reveal_strlit("inline_fallback");
        reveal_strlit("from_inline");
        reveal_strlit("remote_response");
        reveal_strlit("from_remote");
        reveal_strlit("placeholder");
        reveal_strlit("from_placeholder");
        reveal_strlit("ast");
        assert("seed"@.len() == 4 && "seed"@[0] == 's');
        assert("inline_fallback"@.len() == 15 && "inline_fallback"@[0] == 'i');
        assert("from_inline"@.len() == 11 && "from_inline"@[0] == 'f');
        assert("remote_response"@.len() == 15 && "remote_response"@[0] == 'r');
        assert("from_remote"@.len() == 11 && "from_remote"@[0] == 'f');
        assert("placeholder"@.len() == 11 && "placeholder"@[0] == 'p');
        assert("from_placeholder"@.len() == 16 && "from_placeholder"@[0] == 'f');
        assert("ast"@.len() == 3 && "ast"@[0] == 'a');
        assert("from_inline"@[5] != "from_remote"@[5]);
    }
    let mut tracker = StagnationMap::new();
    let mut result = track(&mut tracker, "seed", "{\"kind\":\"Program\",\"children\":[]}");

    let inline = rust_inline_parse("");
    let inline = track(&mut tracker, "inline_fallback", inline.as_str());
    if !is_blank(&chars_of(inline.as_str())) {
        result = track(&mut tracker, "from_inline", inline.as_str());
    }
    let response = match remote {
        Some(bytes) => decode_text(bytes),
        None => None,
    };
    match response {
        Some(text) => {
            let text = track(&mut tracker, "remote_response", text.as_str());
            if !is_blank(&chars_of(text.as_str())) {
                result = track(&mut tracker, "from_remote", text.as_str());
            }
        },
        None => {},
    }
    let placeholder = track(
        &mut tracker,
        "placeholder",
        "{\"kind\":\"Program\",\"children\":[{\"kind\":\"Statement\",\"name\":\"placeholder\"}]}",
    );
    if placeholder != result {
        result = track(&mut tracker, "from_placeholder", placeholder.as_str());
    }

    let text = match input {
        Some(bytes) => match decode_text(bytes) {
            Some(t) => t,
            None => return Err(PipelineError::InputUnavailable),
        },
        None => return Err(PipelineError::InputUnavailable),
    };
    let tokens = tokenize_even_checked(text.as_str());
    let json = build_ast_from_tokens(tokens.as_str());
    proof {
        lemma_builder_reads_tokenizer_output(text@);
        lemma_pad_even(node_json("Program"@, numbered(tags_of(tokens_of(text@)))));
    }
    result = track(&mut tracker, "ast", json.as_str());
    Ok(result)
}

} // verus!
