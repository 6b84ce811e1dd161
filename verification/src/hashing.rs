//! SHA-256 digests that identify recovery content, checkpoint intents, and
//! the fresh identities of duplicated outline nodes and documents.

use crate::application::PersistenceSaveKind;
use sha2::Digest;
use vstd::prelude::*;
use vstd::utf8::encode_utf8;

verus! {

/// The SHA-256 digest of a byte string.
pub uninterp spec fn sha256(bytes: Seq<u8>) -> Seq<u8>;

/// Calls `sha2::Sha256::digest`, which hashes `bytes` as one update: the
/// result is the 32-byte digest named `sha256(bytes)`.
#[verifier::external_body]
fn sha256_digest(bytes: &Vec<u8>) -> (r: [u8; 32])
    ensures
        r@ == sha256(bytes@),
{
    sha2::Sha256::digest(bytes.as_slice()).into()
}

/// The big-endian bytes of `x`.
pub open spec fn be_bytes(x: u64) -> Seq<u8> {
    seq![
        (x / 0x100_0000_0000_0000) as u8,
        (x / 0x1_0000_0000_0000 % 0x100) as u8,
        (x / 0x100_0000_0000 % 0x100) as u8,
        (x / 0x1_0000_0000 % 0x100) as u8,
        (x / 0x100_0000 % 0x100) as u8,
        (x / 0x1_0000 % 0x100) as u8,
        (x / 0x100 % 0x100) as u8,
        (x % 0x100) as u8,
    ]
}

fn push_be_bytes(out: &mut Vec<u8>, x: u64)
    ensures
        final(out)@ == old(out)@ + be_bytes(x),
{
    let ghost start = out@;
    out.push((x / 0x100_0000_0000_0000) as u8);
    out.push((x / 0x1_0000_0000_0000 % 0x100) as u8);
    out.push((x / 0x100_0000_0000 % 0x100) as u8);
    out.push((x / 0x1_0000_0000 % 0x100) as u8);
    out.push((x / 0x100_0000 % 0x100) as u8);
    out.push((x / 0x1_0000 % 0x100) as u8);
    out.push((x / 0x100 % 0x100) as u8);
    out.push((x % 0x100) as u8);
    assert(out@ =~= start + be_bytes(x));
}

fn push_bytes(out: &mut Vec<u8>, bytes: &[u8])
    ensures
        final(out)@ == old(out)@ + bytes@,
{
    let ghost start = out@;
    let mut i: usize = 0;
    while i < bytes.len()
        invariant
            i <= bytes@.len(),
            out@ == start + bytes@.take(i as int),
        decreases bytes.len() - i,
    {
        out.push(bytes[i]);
        i = i + 1;
        assert(out@ =~= start + bytes@.take(i as int));
    }
    assert(bytes@.take(i as int) =~= bytes@);
}

/// The bytes hashed to identify one recovered document: a version label,
/// then the body and the optional annotations, each with its length.
pub open spec fn recovery_document_bytes(body: Seq<u8>, annotations: Option<Seq<u8>>) -> Seq<u8> {
    "parchmint recovery document v1\0"@.map_values(|c: char| c as u8) + be_bytes(body.len() as u64)
        + body + match annotations {
        Some(a) => seq![1u8] + be_bytes(a.len() as u64) + a,
        None => seq![0u8],
    }
}

/// The content hash of a recovered document body and its annotations.
pub fn recovery_document_content_hash(body: &[u8], annotations: Option<&[u8]>) -> (r: [u8; 32])
    requires
        body@.len() <= u64::MAX,
        annotations matches Some(a) ==> a@.len() <= u64::MAX,
    ensures
        r@ == sha256(
            recovery_document_bytes(
                body@,
                match annotations {
                    Some(a) => Some(a@),
                    None => None,
                },
            ),
        ),
{
    let mut bytes: Vec<u8> = Vec::new();
    proof {
        reveal_strlit("parchmint recovery document v1\0");
    }
    push_label(&mut bytes, "parchmint recovery document v1\0");
    push_be_bytes(&mut bytes, body.len() as u64);
    push_bytes(&mut bytes, body);
    match annotations {
        Some(a) => {
            bytes.push(1u8);
            push_be_bytes(&mut bytes, a.len() as u64);
            push_bytes(&mut bytes, a);
        },
        None => {
            bytes.push(0u8);
        },
    }
    proof {
        let ghost ann = match annotations {
            Some(a) => Some(a@),
            None => None::<Seq<u8>>,
        };
        assert(bytes@ =~= recovery_document_bytes(body@, ann));
    }
    sha256_digest(&bytes)
}

fn push_label(out: &mut Vec<u8>, label: &str)
    requires
        vstd::utf8::is_ascii_chars(label@),
    ensures
        final(out)@ == old(out)@ + label@.map_values(|c: char| c as u8),
{
    broadcast use vstd::string::group_string_axioms;
    broadcast use vstd::utf8::is_ascii_chars_encode_utf8;

    let bytes = label.as_bytes();
    proof {
        assert(encode_utf8(label@) =~= label@.map_values(|c: char| c as u8));
    }
    push_bytes(out, bytes);
}

/// The numeric code of a save kind, in declaration order.
pub open spec fn save_kind_code(kind: PersistenceSaveKind) -> u8 {
    match kind {
        PersistenceSaveKind::Autosave => 0,
        PersistenceSaveKind::StructuralEdit => 1,
        PersistenceSaveKind::Explicit => 2,
        PersistenceSaveKind::Final => 3,
        PersistenceSaveKind::Restoration => 4,
        PersistenceSaveKind::NamedSnapshot => 5,
    }
}

fn save_kind_byte(kind: PersistenceSaveKind) -> (b: u8)
    ensures
        b == save_kind_code(kind),
{
    match kind {
        PersistenceSaveKind::Autosave => 0,
        PersistenceSaveKind::StructuralEdit => 1,
        PersistenceSaveKind::Explicit => 2,
        PersistenceSaveKind::Final => 3,
        PersistenceSaveKind::Restoration => 4,
        PersistenceSaveKind::NamedSnapshot => 5,
    }
}

/// Each resource path followed by its content hash.
pub open spec fn resource_bytes(resources: Seq<(String, [u8; 32])>) -> Seq<u8>
    decreases resources.len(),
{
    if resources.len() == 0 {
        Seq::empty()
    } else {
        resource_bytes(resources.drop_last()) + encode_utf8(resources.last().0@) + resources.last().1@
    }
}

/// Each deleted path, marked as a deletion.
pub open spec fn deletion_bytes(deletions: Seq<String>) -> Seq<u8>
    decreases deletions.len(),
{
    if deletions.len() == 0 {
        Seq::empty()
    } else {
        deletion_bytes(deletions.drop_last()) + "delete\0"@.map_values(|c: char| c as u8)
            + encode_utf8(deletions.last()@)
    }
}

/// The bytes hashed to identify a checkpoint's intent: the project, the
/// generation, the kind of save, every resource with its hash, and every
/// deletion.
pub open spec fn checkpoint_intent_bytes(
    project_id: Seq<u8>,
    generation: u64,
    kind: PersistenceSaveKind,
    resources: Seq<(String, [u8; 32])>,
    deletions: Seq<String>,
) -> Seq<u8> {
    project_id + be_bytes(generation) + seq![save_kind_code(kind)] + resource_bytes(resources)
        + deletion_bytes(deletions)
}

/// The hash that identifies what a checkpoint is meant to record.
pub fn checkpoint_intent_hash(
    project_id: &[u8; 16],
    generation: u64,
    kind: PersistenceSaveKind,
    resources: &Vec<(String, [u8; 32])>,
    deletions: &Vec<String>,
) -> (r: [u8; 32])
    ensures
        r@ == sha256(checkpoint_intent_bytes(project_id@, generation, kind, resources@, deletions@)),
{
    let mut bytes: Vec<u8> = Vec::new();
    push_bytes(&mut bytes, project_id.as_slice());
    push_be_bytes(&mut bytes, generation);
    bytes.push(save_kind_byte(kind));
    let ghost head = bytes@;
    let mut i: usize = 0;
    while i < resources.len()
        invariant
            i <= resources@.len(),
            bytes@ == head + resource_bytes(resources@.take(i as int)),
        decreases resources.len() - i,
    {
        proof {
            assert(resources@.take(i + 1).drop_last() =~= resources@.take(i as int));
            assert(resources@.take(i + 1).last() == resources@[i as int]);
        }
        push_bytes(&mut bytes, resources[i].0.as_str().as_bytes());
        push_bytes(&mut bytes, resources[i].1.as_slice());
        i = i + 1;
        assert(bytes@ =~= head + resource_bytes(resources@.take(i as int)));
    }
    assert(resources@.take(i as int) =~= resources@);
    let ghost middle = bytes@;
    let mut j: usize = 0;
    while j < deletions.len()
        invariant
            j <= deletions@.len(),
            bytes@ == middle + deletion_bytes(deletions@.take(j as int)),
        decreases deletions.len() - j,
    {
        proof {
            assert(deletions@.take(j + 1).drop_last() =~= deletions@.take(j as int));
            assert(deletions@.take(j + 1).last() == deletions@[j as int]);
        }
        proof {
            reveal_strlit("delete\0");
        }
        push_label(&mut bytes, "delete\0");
        push_bytes(&mut bytes, deletions[j].as_str().as_bytes());
        j = j + 1;
        assert(bytes@ =~= middle + deletion_bytes(deletions@.take(j as int)));
    }
    assert(deletions@.take(j as int) =~= deletions@);
    assert(bytes@ =~= checkpoint_intent_bytes(project_id@, generation, kind, resources@, deletions@));
    sha256_digest(&bytes)
}

/// The bytes hashed for the `attempt`-th identity candidate of a duplicate:
/// a label, the project, the source, the project revision, the ordinal of
/// the duplicate, and the attempt.
pub open spec fn candidate_bytes(
    label: Seq<u8>,
    project_id: Seq<u8>,
    source: Seq<u8>,
    revision: u64,
    ordinal: u64,
    attempt: u64,
) -> Seq<u8> {
    label + project_id + source + be_bytes(revision) + be_bytes(ordinal) + be_bytes(attempt)
}

/// The `attempt`-th identity candidate: the first 16 bytes of the digest.
pub open spec fn candidate_id(
    label: Seq<u8>,
    project_id: Seq<u8>,
    source: Seq<u8>,
    revision: u64,
    ordinal: u64,
    attempt: u64,
) -> Seq<u8> {
    sha256(candidate_bytes(label, project_id, source, revision, ordinal, attempt)).take(16)
}

/// `id` is one of `taken`.
pub open spec fn is_taken(taken: Seq<[u8; 16]>, id: Seq<u8>) -> bool {
    exists|k: int| 0 <= k < taken.len() && (#[trigger] taken[k])@ == id
}

fn same_id(a: &[u8; 16], b: &[u8; 16]) -> (r: bool)
    ensures
        r == (a@ == b@),
{
    let mut i: usize = 0;
    while i < 16
        invariant
            i <= 16,
            forall|t: int| 0 <= t < i ==> a@[t] == b@[t],
        decreases 16 - i,
    {
        if a[i] != b[i] {
            return false;
        }
        i = i + 1;
    }
    assert(a@ =~= b@);
    true
}

fn taken_contains(taken: &Vec<[u8; 16]>, id: &[u8; 16]) -> (r: bool)
    ensures
        r == is_taken(taken@, id@),
{
    let mut k: usize = 0;
    while k < taken.len()
        invariant
            k <= taken@.len(),
            forall|t: int| 0 <= t < k ==> (#[trigger] taken@[t])@ != id@,
        decreases taken.len() - k,
    {
        if same_id(&taken[k], id) {
            return true;
        }
        k = k + 1;
    }
    false
}

/// Every candidate before the `attempt`-th is `taken`.
#[verifier::opaque]
pub open spec fn taken_before(
    taken: Seq<[u8; 16]>,
    label: Seq<u8>,
    project_id: Seq<u8>,
    source: Seq<u8>,
    revision: u64,
    ordinal: u64,
    attempt: u64,
) -> bool {
    forall|earlier: u64|
        1 <= earlier < attempt ==> is_taken(
            taken,
            #[trigger] candidate_id(label, project_id, source, revision, ordinal, earlier),
        )
}

/// What a search for a fresh identity may return: the first candidate that
/// is not `taken`, or `None` when every candidate is.
pub open spec fn fresh_identity_outcome(
    r: Option<[u8; 16]>,
    taken: Seq<[u8; 16]>,
    label: Seq<u8>,
    project_id: Seq<u8>,
    source: Seq<u8>,
    revision: u64,
    ordinal: u64,
) -> bool {
    match r {
        Some(id) => exists|attempt: u64|
            1 <= attempt && id@ == #[trigger] candidate_id(
                label,
                project_id,
                source,
                revision,
                ordinal,
                attempt,
            ) && !is_taken(taken, id@) && taken_before(
                taken,
                label,
                project_id,
                source,
                revision,
                ordinal,
                attempt,
            ),
        None => taken_before(taken, label, project_id, source, revision, ordinal, u64::MAX)
            && is_taken(taken, candidate_id(label, project_id, source, revision, ordinal, u64::MAX)),
    }
}

proof fn lemma_taken_before_step(
    taken: Seq<[u8; 16]>,
    label: Seq<u8>,
    project_id: Seq<u8>,
    source: Seq<u8>,
    revision: u64,
    ordinal: u64,
    attempt: u64,
)
    requires
        attempt < u64::MAX,
        taken_before(taken, label, project_id, source, revision, ordinal, attempt),
        is_taken(taken, candidate_id(label, project_id, source, revision, ordinal, attempt)),
    ensures
        taken_before(taken, label, project_id, source, revision, ordinal, (attempt + 1) as u64),
{
    reveal(taken_before);
}

proof fn lemma_nothing_before_first(
    taken: Seq<[u8; 16]>,
    label: Seq<u8>,
    project_id: Seq<u8>,
    source: Seq<u8>,
    revision: u64,
    ordinal: u64,
)
    ensures
        taken_before(taken, label, project_id, source, revision, ordinal, 1),
{
    reveal(taken_before);
}

fn fresh_identity(
    label: &str,
    project_id: &[u8; 16],
    source: &[u8; 16],
    revision: u64,
    ordinal: u64,
    taken: &Vec<[u8; 16]>,
) -> (r: Option<[u8; 16]>)
    requires
        vstd::utf8::is_ascii_chars(label@),
    ensures
        fresh_identity_outcome(
            r,
            taken@,
            label@.map_values(|c: char| c as u8),
            project_id@,
            source@,
            revision,
            ordinal,
        ),
{
    let ghost l = label@.map_values(|c: char| c as u8);
    let mut prefix: Vec<u8> = Vec::new();
    push_label(&mut prefix, label);
    push_bytes(&mut prefix, project_id.as_slice());
    push_bytes(&mut prefix, source.as_slice());
    push_be_bytes(&mut prefix, revision);
    push_be_bytes(&mut prefix, ordinal);
    proof {
        lemma_nothing_before_first(taken@, l, project_id@, source@, revision, ordinal);
    }
    let mut attempt: u64 = 1;
    loop
        invariant
            1 <= attempt,
            l == label@.map_values(|c: char| c as u8),
            prefix@ == l + project_id@ + source@ + be_bytes(revision) + be_bytes(ordinal),
            taken_before(taken@, l, project_id@, source@, revision, ordinal, attempt),
        decreases u64::MAX - attempt,
    {
        let candidate = candidate_for(&prefix, attempt, Ghost(l), project_id, source, revision, ordinal);
        if !taken_contains(taken, &candidate) {
            return Some(candidate);
        }
        if attempt == u64::MAX {
            return None;
        }
        proof {
            lemma_taken_before_step(taken@, l, project_id@, source@, revision, ordinal, attempt);
        }
        attempt = attempt + 1;
    }
}

fn candidate_for(
    prefix: &Vec<u8>,
    attempt: u64,
    Ghost(l): Ghost<Seq<u8>>,
    project_id: &[u8; 16],
    source: &[u8; 16],
    revision: u64,
    ordinal: u64,
) -> (candidate: [u8; 16])
    requires
        prefix@ == l + project_id@ + source@ + be_bytes(revision) + be_bytes(ordinal),
    ensures
        candidate@ == candidate_id(l, project_id@, source@, revision, ordinal, attempt),
{
    let mut bytes = prefix.clone();
    push_be_bytes(&mut bytes, attempt);
    assert(bytes@ =~= candidate_bytes(l, project_id@, source@, revision, ordinal, attempt));
    let digest = sha256_digest(&bytes);
    let mut candidate: [u8; 16] = [0; 16];
    let mut i: usize = 0;
    while i < 16
        invariant
            i <= 16,
            digest@.len() == 32,
            forall|t: int| 0 <= t < i ==> candidate@[t] == digest@[t],
        decreases 16 - i,
    {
        candidate.set(i, digest[i]);
        i = i + 1;
    }
    assert(candidate@ =~= digest@.take(16));
    candidate
}

/// A fresh identity for the `ordinal`-th duplicated node: the first
/// candidate derived from the project, the source node and the project
/// revision that is not `taken` (`None` only when every candidate is).
pub fn fresh_node_id(
    project_id: &[u8; 16],
    source: &[u8; 16],
    revision: u64,
    ordinal: u64,
    taken: &Vec<[u8; 16]>,
) -> (r: Option<[u8; 16]>)
    ensures
        fresh_identity_outcome(
            r,
            taken@,
            "parchmint duplicate node\0"@.map_values(|c: char| c as u8),
            project_id@,
            source@,
            revision,
            ordinal,
        ),
{
    proof {
        reveal_strlit("parchmint duplicate node\0");
    }
    fresh_identity("parchmint duplicate node\0", project_id, source, revision, ordinal, taken)
}

/// A fresh identity for the `ordinal`-th duplicated document, derived as
/// for nodes under its own label.
pub fn fresh_document_id(
    project_id: &[u8; 16],
    source: &[u8; 16],
    revision: u64,
    ordinal: u64,
    taken: &Vec<[u8; 16]>,
) -> (r: Option<[u8; 16]>)
    ensures
        fresh_identity_outcome(
            r,
            taken@,
            "parchmint duplicate document\0"@.map_values(|c: char| c as u8),
            project_id@,
            source@,
            revision,
            ordinal,
        ),
{
    proof {
        reveal_strlit("parchmint duplicate document\0");
    }
    fresh_identity("parchmint duplicate document\0", project_id, source, revision, ordinal, taken)
}

} // verus!
