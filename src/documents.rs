use vstd::prelude::*;
use vstd::string::StringSliceAdditionalSpecFns;

verus! {

/// Do the bytes hold one well-formed JSON value?
pub uninterp spec fn is_json(doc: Seq<u8>) -> bool;

/// The UTF-8 bytes of the string under the top-level `"status"` key of the
/// JSON document `doc`; `None` when the document is malformed, is no object,
/// lacks the key or holds no string there.
pub uninterp spec fn json_status(doc: Seq<u8>) -> Option<Seq<u8>>;

/// Relies on serde_json::from_slice into a `serde_json::Value`: whether the
/// bytes parse as JSON depends on the bytes alone.
#[verifier::external_body]
fn parses_as_json(doc: &[u8]) -> (r: bool)
    ensures
        r == is_json(doc@),
{
    serde_json::from_slice::<serde_json::Value>(doc).is_ok()
}

/// Relies on serde_json::from_slice into a `serde_json::Value`, then
/// `Value::get("status")` and `Value::as_str`: the status text of a document
/// depends on the bytes alone.
#[verifier::external_body]
fn status_of(doc: &[u8]) -> (r: Option<Vec<u8>>)
    ensures
        match r {
            Some(s) => json_status(doc@) == Some(s@),
            None => json_status(doc@) is None,
        },
{
    let value = serde_json::from_slice::<serde_json::Value>(doc).ok()?;
    value.get("status").and_then(|s| s.as_str()).map(|s| s.as_bytes().to_vec())
}

/// The ASCII bytes of `active`.
pub open spec fn active_text() -> Seq<u8> {
    seq![97u8, 99u8, 116u8, 105u8, 118u8, 101u8]
}

/// The ASCII bytes of `hub`.
pub open spec fn hub_text() -> Seq<u8> {
    seq![104u8, 117u8, 98u8]
}

/// Is the document an active catalog entry: a JSON object whose `status` is `active`?
pub open spec fn is_active_doc(doc: Seq<u8>) -> bool {
    json_status(doc) == Some(active_text())
}

fn same_bytes(a: &[u8], b: &[u8]) -> (r: bool)
    ensures
        r == (a@ == b@),
{
    if a.len() != b.len() {
        return false;
    }
    let mut i: usize = 0;
    while i < a.len()
        invariant
            a@.len() == b@.len(),
            i <= a@.len(),
            forall|j: int| 0 <= j < i ==> a@[j] == b@[j],
        decreases a@.len() - i,
    {
        if a[i] != b[i] {
            return false;
        }
        i = i + 1;
    }
    assert(a@ =~= b@);
    true
}

/// Does the document's status read `active`?
pub fn is_active(doc: &[u8]) -> (r: bool)
    ensures
        r == is_active_doc(doc@),
{
    match status_of(doc) {
        Some(s) => {
            let active: [u8; 6] = [97u8, 99u8, 116u8, 105u8, 118u8, 101u8];
            assert(active@ =~= active_text());
            same_bytes(s.as_slice(), active.as_slice())
        },
        None => false,
    }
}

/// The answer of a catalog lookup by key, given what the store held under it:
/// one entry, the document itself when it is active, else empty bytes.
pub fn query_by_id(found: Option<Vec<u8>>) -> (r: Vec<Vec<u8>>)
    ensures
        r@.len() == 1,
        r@[0]@ == match found {
            Some(doc) => if is_active_doc(doc@) {
                doc@
            } else {
                Seq::empty()
            },
            None => Seq::<u8>::empty(),
        },
{
    let result = match found {
        Some(doc) => {
            if is_active(doc.as_slice()) {
                doc
            } else {
                Vec::new()
            }
        },
        None => Vec::new(),
    };
    let mut r: Vec<Vec<u8>> = Vec::new();
    r.push(result);
    r
}

/// Which documents a catalog listing keeps: well-formed JSON, and for any
/// kind but `hub` only active entries.
pub open spec fn listed(doc: Seq<u8>, object_type: Seq<u8>) -> bool {
    is_json(doc) && (object_type == hub_text() || is_active_doc(doc))
}

/// The kept documents of `docs`, in order.
pub open spec fn listing(docs: Seq<Vec<u8>>, object_type: Seq<u8>) -> Seq<Seq<u8>>
    decreases docs.len(),
{
    if docs.len() == 0 {
        Seq::empty()
    } else {
        let prefix = listing(docs.drop_last(), object_type);
        if listed(docs.last()@, object_type) {
            prefix.push(docs.last()@)
        } else {
            prefix
        }
    }
}

/// The documents of a catalog listing of kind `object_type`, given the
/// stored documents in key order: malformed ones are skipped, and unless the
/// kind is `hub` so are inactive ones.
pub fn list_query(docs: Vec<Vec<u8>>, object_type: &str) -> (r: Vec<Vec<u8>>)
    ensures
        r@.map_values(|d: Vec<u8>| d@) == listing(docs@, object_type.spec_bytes()),
{
    let hub: [u8; 3] = [104u8, 117u8, 98u8];
    assert(hub@ =~= hub_text());
    let every_kind = same_bytes(object_type.as_bytes(), hub.as_slice());
    let mut out: Vec<Vec<u8>> = Vec::new();
    let mut i: usize = 0;
    let mut docs = docs;
    let ghost all = docs@;
    let n = docs.len();
    while docs.len() > 0
        invariant
            docs@.len() + i == all.len(),
            all.len() == n,
            docs@ =~= all.subrange(i as int, all.len() as int),
            out@.map_values(|d: Vec<u8>| d@) == listing(all.subrange(0, i as int), object_type.spec_bytes()),
            every_kind == (object_type.spec_bytes() == hub_text()),
        decreases docs@.len(),
    {
        let doc = docs.remove(0);
        proof {
            assert(doc == all[i as int]);
            let p = all.subrange(0, i + 1);
            assert(p.drop_last() =~= all.subrange(0, i as int));
        }
        let keep = parses_as_json(doc.as_slice()) && (every_kind || is_active(doc.as_slice()));
        if keep {
            let ghost before = out@;
            out.push(doc);
            assert(out@.map_values(|d: Vec<u8>| d@) =~= before.map_values(|d: Vec<u8>| d@).push(all[i as int]@));
        }
        i = i + 1;
    }
    assert(all.subrange(0, i as int) =~= all);
    out
}

} // verus!
