//! Objects that are named by their digest: where an input is fetched from, and where an
//! output is put.

use vstd::prelude::*;
use crate::error::{outcome, Error};
use crate::model::{digest, digest_valid, fault, InputArtifact};
use crate::outputs::{object_file, Upload, UploadView};
use crate::path::{below, join_path};
use crate::text::{
    glue, glue3, is_hex, law_texts_begin_and_end, lower, lowered, same, starts, starts_with,
    strip_prefix, text_of, to_lower, trim_end_char, trimmed_end, without,
};

verus! {

/// The address of an object behind a gateway.
pub open spec fn gateway_url(endpoint: Seq<char>, uri: Seq<char>) -> Result<
    Seq<char>,
    Seq<Seq<char>>,
> {
    if starts(uri, "s3://"@) {
        Ok(trimmed_end(endpoint, '/') + "/"@ + without(uri, "s3://"@))
    } else {
        Err(seq!["invalid s3 URI"@])
    }
}

/// The address of an object behind a gateway.
pub fn s3_url(endpoint: &str, uri: &str) -> (r: Result<String, Error>)
    ensures
        outcome(r) == gateway_url(endpoint@, uri@),
{
    match strip_prefix(uri, "s3://") {
        Some(rest) => {
            let base = trim_end_char(endpoint, '/');
            Ok(glue3(base.as_str(), "/", rest.as_str()))
        },
        None => Err(Error::new("invalid s3 URI")),
    }
}

/// Where the bytes of an input come from.
#[derive(Debug)]
pub enum Origin {
    File(String),
    Address(String),
}

pub enum OriginView {
    File(Seq<char>),
    Address(Seq<char>),
}

impl View for Origin {
    type V = OriginView;

    open spec fn view(&self) -> OriginView {
        match self {
            Origin::File(p) => OriginView::File(p@),
            Origin::Address(u) => OriginView::Address(u@),
        }
    }
}

/// Two digests in hexadecimal digits of either case are the same.
pub open spec fn same_digest(a: Seq<char>, b: Seq<char>) -> bool {
    lowered(a) == lowered(b)
}

/// Where an input comes from, by its address. `store` is the directory of the objects of this
/// host, `endpoint` the gateway to those of others.
pub open spec fn origin_of(
    uri: Seq<char>,
    sha256: Seq<char>,
    store: Option<Seq<char>>,
    endpoint: Option<Seq<char>>,
) -> Result<OriginView, Seq<Seq<char>>> {
    if starts(uri, "file://"@) {
        Ok(OriginView::File(without(uri, "file://"@)))
    } else if starts(uri, "cas://sha256/"@) {
        let name = without(uri, "cas://sha256/"@);
        if !(digest(name) && same_digest(name, sha256)) {
            Err(seq!["CAS URI must contain the declared SHA256 digest"@])
        } else {
            match store {
                None => Err(seq!["NIX_COMPUTE_CAS_ROOT is required for cas:// inputs"@]),
                Some(root) => Ok(OriginView::File(below(root, name))),
            }
        }
    } else if starts(uri, "http://"@) || starts(uri, "https://"@) {
        Ok(OriginView::Address(uri))
    } else if starts(uri, "s3://"@) {
        match endpoint {
            None => Err(
                seq!["s3:// inputs require NIX_COMPUTE_S3_ENDPOINT (anonymous HTTP gateway)"@],
            ),
            Some(e) => Ok(
                OriginView::Address(trimmed_end(e, '/') + "/"@ + without(uri, "s3://"@)),
            ),
        }
    } else {
        Err(
            seq![
                "unsupported input URI "@ + uri + "; use file://, cas://, http(s)://, or s3://"@,
            ],
        )
    }
}

/// Where an input comes from.
pub fn materialize_input(
    input: &InputArtifact,
    store: Option<String>,
    endpoint: Option<String>,
) -> (r: Result<Origin, Error>)
    ensures
        outcome(r) == origin_of(input.uri@, input.sha256@, text_of(store), text_of(endpoint)),
{
    let uri = input.uri.as_str();
    if let Some(path) = strip_prefix(uri, "file://") {
        return Ok(Origin::File(path));
    }
    if let Some(name) = strip_prefix(uri, "cas://sha256/") {
        if !(digest_valid(name.as_str()) && digests_agree(name.as_str(), input.sha256.as_str())) {
            return Err(Error::new("CAS URI must contain the declared SHA256 digest"));
        }
        return match store {
            None => Err(Error::new("NIX_COMPUTE_CAS_ROOT is required for cas:// inputs")),
            Some(root) => Ok(Origin::File(join_path(root.as_str(), name.as_str()))),
        };
    }
    if starts_with(uri, "http://") || starts_with(uri, "https://") {
        return Ok(Origin::Address(uri.to_owned()));
    }
    if starts_with(uri, "s3://") {
        return match endpoint {
            None => Err(
                Error::new(
                    "s3:// inputs require NIX_COMPUTE_S3_ENDPOINT (anonymous HTTP gateway)",
                ),
            ),
            Some(e) => match s3_url(e.as_str(), uri) {
                Ok(url) => Ok(Origin::Address(url)),
                Err(e) => Err(e),
            },
        };
    }
    Err(
        Error::of(
            glue3("unsupported input URI ", uri, "; use file://, cas://, http(s)://, or s3://"),
        ),
    )
}

fn digests_agree(a: &str, b: &str) -> (r: bool)
    ensures
        r == same_digest(a@, b@),
{
    same(to_lower(a).as_str(), to_lower(b).as_str())
}

/// Whether what was fetched is what was declared.
pub open spec fn digest_check(declared: Seq<char>, found: Seq<char>) -> Result<
    (),
    Seq<Seq<char>>,
> {
    if same_digest(found, declared) {
        Ok(())
    } else {
        fault("input digest mismatch: expected "@ + declared + ", got "@ + found)
    }
}

/// Whether what was fetched is what was declared, by its digest.
pub fn check_input_digest(input: &InputArtifact, found: &str) -> (r: Result<(), Error>)
    ensures
        outcome(r) == digest_check(input.sha256@, found@),
{
    if digests_agree(found, input.sha256.as_str()) {
        return Ok(());
    }
    let head = glue3("input digest mismatch: expected ", input.sha256.as_str(), ", got ");
    Err(Error::of(glue(head.as_str(), found)))
}

/// How an output is put under a destination.
pub open spec fn placement_of(
    destination: Seq<char>,
    sha256: Seq<char>,
    endpoint: Option<Seq<char>>,
) -> Result<UploadView, Seq<Seq<char>>> {
    if starts(destination, "file://"@) {
        let target = object_file(without(destination, "file://"@), sha256);
        Ok(UploadView::Copy { target, uri: "file://"@ + target })
    } else if starts(destination, "s3://"@) {
        match endpoint {
            None => Err(seq!["s3:// outputs require NIX_COMPUTE_S3_ENDPOINT"@]),
            Some(e) => match gateway_url(e, destination + "/sha256/"@ + sha256) {
                Ok(url) => Ok(UploadView::Send { url }),
                Err(why) => Err(why),
            },
        }
    } else {
        Err(
            seq![
                "unsupported output destination "@ + destination + "; use file:// or s3://"@,
            ],
        )
    }
}

/// How an output is put under a destination, by its digest.
pub fn upload_output(destination: &str, sha256: &str, endpoint: Option<String>) -> (r: Result<
    Upload,
    Error,
>)
    ensures
        outcome(r) == placement_of(destination@, sha256@, text_of(endpoint)),
{
    if let Some(root) = strip_prefix(destination, "file://") {
        let objects = join_path(root.as_str(), "sha256");
        let target = join_path(objects.as_str(), sha256);
        let uri = glue("file://", target.as_str());
        return Ok(Upload::Copy { target, uri });
    }
    if starts_with(destination, "s3://") {
        return match endpoint {
            None => Err(Error::new("s3:// outputs require NIX_COMPUTE_S3_ENDPOINT")),
            Some(e) => {
                let object = glue3(destination, "/sha256/", sha256);
                match s3_url(e.as_str(), object.as_str()) {
                    Ok(url) => Ok(Upload::Send { url }),
                    Err(why) => Err(why),
                }
            },
        };
    }
    Err(
        Error::of(
            glue3("unsupported output destination ", destination, "; use file:// or s3://"),
        ),
    )
}

/// An object of this host is always the one that the input declares: the name of its file
/// is the digest, and leads to no other place.
pub proof fn law_stored_objects_are_the_declared(
    uri: Seq<char>,
    sha256: Seq<char>,
    root: Seq<char>,
    endpoint: Option<Seq<char>>,
)
    requires
        starts(uri, "cas://sha256/"@),
        origin_of(uri, sha256, Some(root), endpoint) is Ok,
    ensures
        ({
            let name = without(uri, "cas://sha256/"@);
            &&& digest(name)
            &&& same_digest(name, sha256)
            &&& origin_of(uri, sha256, Some(root), endpoint)->Ok_0 == OriginView::File(
                below(root, name),
            )
        }),
{
    reveal_strlit("cas://sha256/");
    reveal_strlit("file://");
    if starts(uri, "file://"@) {
        assert(uri[0] == "file://"@[0]);
        assert(uri[0] == "cas://sha256/"@[0]);
    }
}

proof fn lemma_schemes_differ()
    ensures
        "file://"@.len() == 7 && "file://"@[0] == 'f',
        "cas://sha256/"@.len() == 13 && "cas://sha256/"@[0] == 'c',
        "http://"@.len() == 7 && "http://"@[0] == 'h',
        "https://"@.len() == 8 && "https://"@[0] == 'h',
        "s3://"@.len() == 5 && "s3://"@[0] == 's',
{
    reveal_strlit("file://");
    reveal_strlit("cas://sha256/");
    reveal_strlit("http://");
    reveal_strlit("https://");
    reveal_strlit("s3://");
}

/// The scheme of an input tells where it comes from: a file by its path, an address as it is, an
/// object of the bucket behind the gateway, and an object of the store under its own digest, which
/// must be the one that was declared.
pub proof fn law_inputs_come_from_where_they_say(
    rest: Seq<char>,
    sha256: Seq<char>,
    store: Option<Seq<char>>,
    endpoint: Option<Seq<char>>,
)
    ensures
        origin_of("file://"@ + rest, sha256, store, endpoint) == Ok::<OriginView, Seq<Seq<char>>>(
            OriginView::File(rest),
        ),
        origin_of("http://"@ + rest, sha256, store, endpoint) == Ok::<OriginView, Seq<Seq<char>>>(
            OriginView::Address("http://"@ + rest),
        ),
        origin_of("https://"@ + rest, sha256, store, endpoint) == Ok::<OriginView, Seq<Seq<char>>>(
            OriginView::Address("https://"@ + rest),
        ),
        endpoint is None ==> origin_of("s3://"@ + rest, sha256, store, endpoint) is Err,
        endpoint matches Some(e) ==> origin_of("s3://"@ + rest, sha256, store, endpoint) == Ok::<
            OriginView,
            Seq<Seq<char>>,
        >(OriginView::Address(trimmed_end(e, '/') + "/"@ + rest)),
        origin_of("cas://sha256/"@ + rest, sha256, store, endpoint) is Ok <==> store is Some
            && digest(rest) && lowered(rest) == lowered(sha256),
        digest(rest) && lowered(rest) == lowered(sha256) && store is Some && store->0.len() > 0
            && store->0.last() != '/' ==> origin_of(
            "cas://sha256/"@ + rest,
            sha256,
            store,
            endpoint,
        ) == Ok::<OriginView, Seq<Seq<char>>>(OriginView::File(store->0 + "/"@ + rest)),
        gateway_url(sha256, "s3://"@ + rest) == Ok::<Seq<char>, Seq<Seq<char>>>(
            trimmed_end(sha256, '/') + "/"@ + rest,
        ),
{
    lemma_schemes_differ();
    law_texts_begin_and_end(rest, "file://"@, rest);
    law_texts_begin_and_end(rest, "http://"@, rest);
    law_texts_begin_and_end(rest, "https://"@, rest);
    law_texts_begin_and_end(rest, "s3://"@, rest);
    law_texts_begin_and_end(rest, "cas://sha256/"@, rest);
    lemma_begins_with(("http://"@ + rest), "file://"@);
    lemma_begins_with(("http://"@ + rest), "cas://sha256/"@);
    lemma_begins_with(("https://"@ + rest), "file://"@);
    lemma_begins_with(("https://"@ + rest), "cas://sha256/"@);
    lemma_begins_with(("s3://"@ + rest), "file://"@);
    lemma_begins_with(("s3://"@ + rest), "cas://sha256/"@);
    lemma_begins_with(("s3://"@ + rest), "http://"@);
    lemma_begins_with(("s3://"@ + rest), "https://"@);
    lemma_begins_with(("cas://sha256/"@ + rest), "file://"@);
    assert(("http://"@ + rest)[0] == 'h');
    assert(("https://"@ + rest)[0] == 'h');
    assert(("s3://"@ + rest)[0] == 's');
    assert(("cas://sha256/"@ + rest)[0] == 'c');
    if digest(rest) && store is Some && store->0.len() > 0 && store->0.last() != '/' {
        reveal_strlit("/");
        assert(is_hex(rest[0]));
        assert(below(store->0, rest) =~= store->0 + "/"@ + rest);
    }
}

proof fn lemma_begins_with(s: Seq<char>, p: Seq<char>)
    requires
        p.len() > 0,
    ensures
        starts(s, p) ==> s[0] == p[0],
{
    if starts(s, p) {
        assert(s.subrange(0, p.len() as int)[0] == s[0]);
    }
}

/// What was fetched is taken exactly where its digest is the declared one, in whatever case.
pub proof fn law_fetched_inputs_have_their_digest(declared: Seq<char>, found: Seq<char>)
    ensures
        digest_check(declared, found) is Ok <==> declared.len() == found.len() && forall|i: int|
            0 <= i < found.len() ==> lower(#[trigger] found[i]) == lower(declared[i]),
        digest_check(declared, declared) is Ok,
{
    if digest_check(declared, found) is Ok {
        assert(lowered(found).len() == lowered(declared).len());
        assert forall|i: int| 0 <= i < found.len() implies lower(#[trigger] found[i]) == lower(
            declared[i],
        ) by {
            assert(lowered(found)[i] == lowered(declared)[i]);
        }
    }
    if declared.len() == found.len() && forall|i: int|
        0 <= i < found.len() ==> lower(#[trigger] found[i]) == lower(declared[i]) {
        assert(lowered(found) =~= lowered(declared)) by {
            assert forall|i: int| 0 <= i < found.len() implies lowered(found)[i] == lowered(
                declared,
            )[i] by {
                assert(lower(found[i]) == lower(declared[i]));
            }
        }
    }
}

/// An output of a run is put under its digest: into a directory, or into a bucket behind the
/// gateway.
#[verifier::rlimit(50)]
#[verifier::spinoff_prover]
pub proof fn law_outputs_are_put_under_their_digest(
    rest: Seq<char>,
    sha256: Seq<char>,
    endpoint: Option<Seq<char>>,
)
    requires
        rest.len() > 0,
        rest.last() != '/',
        sha256.len() > 0,
        sha256[0] != '/',
    ensures
        placement_of("file://"@ + rest, sha256, endpoint) matches Ok(UploadView::Copy { target, uri })
            && target == rest + "/sha256/"@ + sha256 && uri == "file://"@ + rest + "/sha256/"@
            + sha256,
        endpoint is None ==> placement_of("s3://"@ + rest, sha256, endpoint) is Err,
        endpoint matches Some(e) ==> (placement_of("s3://"@ + rest, sha256, endpoint) matches Ok(
            UploadView::Send { url },
        ) && url == trimmed_end(e, '/') + "/"@ + rest + "/sha256/"@ + sha256),
{
    lemma_schemes_differ();
    law_texts_begin_and_end(rest, "file://"@, rest);
    law_texts_begin_and_end(rest, "s3://"@, rest);
    let more = rest + "/sha256/"@ + sha256;
    law_texts_begin_and_end(rest, "s3://"@, more);
    lemma_begins_with(("s3://"@ + rest), "file://"@);
    assert(("s3://"@ + rest)[0] == 's');
    reveal_strlit("sha256");
    reveal_strlit("/sha256/");
    reveal_strlit("/");
    let objects = below(rest, "sha256"@);
    assert(objects =~= rest + "/"@ + "sha256"@);
    assert(objects.last() == '6');
    assert(below(objects, sha256) =~= more);
    assert("file://"@ + more =~= "file://"@ + rest + "/sha256/"@ + sha256);
    assert("s3://"@ + rest + "/sha256/"@ + sha256 =~= "s3://"@ + more);
    if let Some(e) = endpoint {
        assert(trimmed_end(e, '/') + "/"@ + more =~= trimmed_end(e, '/') + "/"@ + rest + "/sha256/"@
            + sha256);
    }
}

/// Without the slashes at its end a text stays what it was.
pub proof fn law_only_the_end_is_trimmed(s: Seq<char>, n: nat)
    requires
        s.len() == 0 || s.last() != '/',
    ensures
        trimmed_end(s + Seq::new(n, |i: int| '/'), '/') == s,
    decreases n,
{
    let all = s + Seq::new(n, |i: int| '/');
    if n > 0 {
        assert(all.last() == '/');
        assert(all.drop_last() =~= s + Seq::new((n - 1) as nat, |i: int| '/'));
        law_only_the_end_is_trimmed(s, (n - 1) as nat);
    } else {
        assert(all =~= s);
    }
}

/// An input is fetched from where its address says, and is taken exactly where it has the digest
/// that was declared.
pub proof fn law_inputs_are_fetched_as_declared(
    input: &InputArtifact,
    store: Option<String>,
    endpoint: Option<String>,
    origin: Result<Origin, Error>,
    found: &str,
    taken: Result<(), Error>,
    rest: Seq<char>,
)
    requires
        call_ensures(materialize_input, (input, store, endpoint), origin),
        call_ensures(check_input_digest, (input, found), taken),
    ensures
        input.uri@ == "file://"@ + rest ==> (origin matches Ok(Origin::File(p)) && p@ == rest),
        input.uri@ == "https://"@ + rest || input.uri@ == "http://"@ + rest ==> (origin matches Ok(
            Origin::Address(u),
        ) && u@ == input.uri@),
        input.uri@ == "s3://"@ + rest ==> (origin is Ok <==> endpoint is Some) && (
        endpoint matches Some(e) ==> (origin matches Ok(Origin::Address(u)) && u@ == trimmed_end(
            e@,
            '/',
        ) + "/"@ + rest)),
        input.uri@ == "cas://sha256/"@ + rest ==> (origin is Ok <==> store is Some && digest(rest)
            && lowered(rest) == lowered(input.sha256@)),
        taken is Ok <==> lowered(found@) == lowered(input.sha256@),
{
    law_inputs_come_from_where_they_say(
        rest,
        input.sha256@,
        text_of(store),
        text_of(endpoint),
    );
}

/// An output of a run is sent where its destination says, under its digest.
pub proof fn law_outputs_are_sent_where_they_belong(
    destination: &str,
    sha256: &str,
    endpoint: Option<String>,
    upload: Result<Upload, Error>,
    rest: Seq<char>,
)
    requires
        call_ensures(upload_output, (destination, sha256, endpoint), upload),
        rest.len() > 0,
        rest.last() != '/',
        sha256@.len() > 0,
        sha256@[0] != '/',
    ensures
        destination@ == "file://"@ + rest ==> (upload matches Ok(Upload::Copy { target, uri })
            && target@ == rest + "/sha256/"@ + sha256@ && uri@ == "file://"@ + rest + "/sha256/"@
            + sha256@),
        destination@ == "s3://"@ + rest && endpoint is Some ==> (upload matches Ok(
            Upload::Send { url },
        ) && url@ == trimmed_end(endpoint->0@, '/') + "/"@ + rest + "/sha256/"@ + sha256@),
        destination@ == "s3://"@ + rest && endpoint is None ==> upload is Err,
{
    law_outputs_are_put_under_their_digest(rest, sha256@, text_of(endpoint));
}

} // verus!
