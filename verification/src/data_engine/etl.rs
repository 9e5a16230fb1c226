//! Identifiers and endpoints of an ETL run.

use vstd::prelude::*;

use crate::text::{all_digits, decimal, decimal_text, digits_value, lemma_decimal_reads_back};

verus! {

/// The identifier of a run: `{prefix}-{process id}-{milliseconds since epoch}`.
pub open spec fn request_id_spec(prefix: Seq<char>, pid: u32, millis: u128) -> Seq<char> {
    prefix + "-"@ + decimal(pid as nat) + "-"@ + decimal(millis as nat)
}

/// The Hugging Face endpoint that receives uploads to a dataset repository.
pub open spec fn upload_url_spec(repo: Seq<char>) -> Seq<char> {
    "https://huggingface.co/api/datasets/"@ + repo + "/upload"@
}

/// The identifier of a run started by process `pid` at `millis`
/// milliseconds after the Unix epoch.
pub fn request_id(prefix: &str, pid: u32, millis: u128) -> (r: String)
    ensures
        r@ == request_id_spec(prefix@, pid, millis),
{
    let mut r = prefix.to_owned();
    r.append("-");
    let p = decimal_text(pid as u128);
    r.append(p.as_str());
    r.append("-");
    let t = decimal_text(millis);
    r.append(t.as_str());
    r
}

/// The upload endpoint of a Hugging Face dataset repository.
pub fn upload_url(repo: &str) -> (r: String)
    ensures
        r@ == upload_url_spec(repo@),
{
    let mut r = "https://huggingface.co/api/datasets/".to_owned();
    r.append(repo);
    r.append("/upload");
    r
}

/// A run identifier is the prefix, `-`, the process id, `-`, the time: the two
/// numeric fields are non-empty digit strings (so they hold no `-`), and they
/// read back as the full process id and the full time.
pub proof fn lemma_request_id_fields(prefix: Seq<char>, pid: u32, millis: u128)
    ensures
        exists|pid_field: Seq<char>, time_field: Seq<char>|
            {
                &&& request_id_spec(prefix, pid, millis) == prefix + seq!['-'] + pid_field + seq!['-'] + time_field
                &&& pid_field.len() > 0 && all_digits(pid_field)
                &&& time_field.len() > 0 && all_digits(time_field)
                &&& #[trigger] digits_value(pid_field) == pid
                &&& #[trigger] digits_value(time_field) == millis
            },
{
    reveal_strlit("-");
    assert("-"@ =~= seq!['-']);
    lemma_decimal_reads_back(pid as nat);
    lemma_decimal_reads_back(millis as nat);
    let p = decimal(pid as nat);
    let t = decimal(millis as nat);
    assert(request_id_spec(prefix, pid, millis) == prefix + seq!['-'] + p + seq!['-'] + t);
}

/// The upload endpoint is `https://huggingface.co/api/datasets/` (36
/// characters), the whole repository name, then `/upload` (7 characters).
pub proof fn lemma_upload_url_parts(repo: Seq<char>)
    ensures
        upload_url_spec(repo).len() == 36 + repo.len() + 7,
        upload_url_spec(repo).take(36) == "https://huggingface.co/api/datasets/"@,
        upload_url_spec(repo).subrange(36, 36 + repo.len() as int) == repo,
        upload_url_spec(repo).skip(36 + repo.len() as int) == "/upload"@,
{
    reveal_strlit("https://huggingface.co/api/datasets/");
    reveal_strlit("/upload");
    let r = upload_url_spec(repo);
    assert(r.take(36) =~= "https://huggingface.co/api/datasets/"@);
    assert(r.subrange(36, 36 + repo.len() as int) =~= repo);
    assert(r.skip(36 + repo.len() as int) =~= "/upload"@);
}

} // verus!
