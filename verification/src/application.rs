//! Application command vocabulary, persistence handles, and the stable
//! hexadecimal spelling of 128-bit identifiers.

use vstd::prelude::*;

verus! {

/// Why both undo owners were reset.
#[derive(Debug, Clone, Copy, PartialEq, Eq)]
pub enum UndoResetReason {
    ProjectClosed,
    RecoveryAccepted,
    MigrationCompleted,
    HistoryRestored,
}

/// Identifier of one durable checkpoint group.
#[derive(Debug, Clone, Copy, PartialEq, Eq, PartialOrd, Ord, Hash)]
pub struct CheckpointGroupId(pub u64);

impl CheckpointGroupId {
    /// The raw group number.
    pub fn value(self) -> (v: u64)
        ensures
            v == self.0,
    {
        self.0
    }
}

/// What a project command did.
#[derive(Debug, Clone, PartialEq, Eq)]
pub enum ProjectEvent {
    Executed,
    Undone,
    Redone,
    Unchanged,
    GlobalReplacementApplied { documents: usize },
}

/// How a document is currently held by the document owner.
#[derive(Debug, Clone, Copy, PartialEq, Eq, Structural)]
pub enum DocumentVisibility {
    Open,
    Hidden,
    Closed,
}

/// Whether a document patch is applied forward or as its inverse.
#[derive(Debug, Clone, Copy, PartialEq, Eq)]
pub enum PatchDirection {
    Forward,
    Inverse,
}

/// Project undo/redo availability shown by menus.
#[derive(Debug, Clone, PartialEq, Eq)]
pub struct ProjectUndoState {
    pub can_undo: bool,
    pub can_redo: bool,
    pub undo_label: Option<String>,
    pub redo_label: Option<String>,
}

/// Why a project save was requested.
#[derive(Debug, Clone, Copy, PartialEq, Eq)]
pub enum PersistenceSaveKind {
    Autosave,
    StructuralEdit,
    Explicit,
    Final,
    Restoration,
    NamedSnapshot,
}

/// Handle of one pending recovery that awaits the writer's acceptance.
#[derive(Debug, Clone, Copy, PartialEq, Eq, PartialOrd, Ord, Hash)]
pub struct RecoveryAcceptance(u64);

/// Handle of one pending project save.
#[derive(Debug, Clone, Copy, PartialEq, Eq, PartialOrd, Ord, Hash)]
pub struct PersistenceSaveHandle(pub u64);

impl PersistenceSaveHandle {
    /// The raw handle number.
    pub fn value(self) -> (v: u64)
        ensures
            v == self.0,
    {
        self.0
    }
}

/// Project persistence failure.
#[derive(Debug, Clone, PartialEq, Eq)]
pub enum ProjectPersistenceError {
    Application(String),
    Projection(String),
    Format(String),
    Save(String),
    History(String),
    OperationInProgress,
    UnknownSaveHandle,
    UnknownRecoveryAcceptance,
    StateUnavailable,
}

/// Lowercase hexadecimal digit for `d < 16`.
pub open spec fn hex_digit(d: nat) -> char {
    if d < 10 {
        (48 + d) as char
    } else {
        (87 + d) as char
    }
}

/// Two lowercase hexadecimal digits per byte, most significant first.
pub open spec fn hex_text(bytes: Seq<u8>) -> Seq<char>
    decreases bytes.len(),
{
    if bytes.len() == 0 {
        Seq::empty()
    } else {
        hex_text(bytes.drop_last()).push(hex_digit((bytes.last() / 16) as nat)).push(
            hex_digit((bytes.last() % 16) as nat),
        )
    }
}

fn hex_digit_char(d: u8) -> (c: char)
    requires
        d < 16,
    ensures
        c == hex_digit(d as nat),
{
    if d < 10 {
        (48u8 + d) as char
    } else {
        (87u8 + d) as char
    }
}

/// The stable 32-character lowercase hexadecimal spelling of an identifier.
pub fn stable_id_text(bytes: &[u8; 16]) -> (text: String)
    ensures
        text@ == hex_text(bytes@),
{
    let mut out: Vec<char> = Vec::new();
    let mut i: usize = 0;
    while i < 16
        invariant
            i <= 16,
            bytes@.len() == 16,
            out@ == hex_text(bytes@.take(i as int)),
        decreases 16 - i,
    {
        assert(bytes@.take(i + 1).drop_last() =~= bytes@.take(i as int));
        let b = bytes[i];
        out.push(hex_digit_char(b / 16));
        out.push(hex_digit_char(b % 16));
        i = i + 1;
    }
    assert(bytes@.take(16) =~= bytes@);
    crate::chars::string_from_chars(&out)
}

/// Value of an ASCII hexadecimal digit byte (either case).
pub open spec fn hex_byte_value(b: u8) -> Option<u8> {
    crate::path::hex_value(b)
}

/// A stable identifier spelling: exactly 32 bytes, all hexadecimal digits.
pub open spec fn is_stable_id_text(b: Seq<u8>) -> bool {
    b.len() == 32 && forall|i: int| 0 <= i < 32 ==> (#[trigger] hex_byte_value(b[i])) is Some
}

/// Byte `i` of a stable identifier spelled by `b`.
pub open spec fn stable_id_byte(b: Seq<u8>, i: int) -> u8 {
    (hex_byte_value(b[2 * i])->0 as int * 16 + hex_byte_value(b[2 * i + 1])->0 as int) as u8
}

/// The identifier that `text` spells, if it is a stable spelling.
pub open spec fn parsed_stable_id(text: Seq<char>) -> Option<Seq<u8>> {
    let b = vstd::utf8::encode_utf8(text);
    if is_stable_id_text(b) {
        Some(Seq::new(16, |i: int| stable_id_byte(b, i)))
    } else {
        None
    }
}

/// Parses the stable spelling of an identifier (hexadecimal digits in either
/// case); any other text is an unknown recovery acceptance.
pub fn parse_stable_id(value: &str) -> (r: Result<[u8; 16], ProjectPersistenceError>)
    ensures
        match r {
            Ok(bytes) => parsed_stable_id(value@) == Some(bytes@),
            Err(e) => parsed_stable_id(value@) is None && e is UnknownRecoveryAcceptance,
        },
        r matches Ok(bytes) ==> is_stable_id_text(vstd::utf8::encode_utf8(value@)) && forall|i: int|
            0 <= i < 16 ==> #[trigger] bytes@[i] == stable_id_byte(
                vstd::utf8::encode_utf8(value@),
                i,
            ),
        r matches Err(e) ==> !is_stable_id_text(vstd::utf8::encode_utf8(value@)) && e is UnknownRecoveryAcceptance,
{
    let b = value.as_bytes();
    if b.len() != 32 {
        return Err(ProjectPersistenceError::UnknownRecoveryAcceptance);
    }
    let mut k: usize = 0;
    while k < 32
        invariant
            k <= 32,
            b@.len() == 32,
            b@ == vstd::utf8::encode_utf8(value@),
            forall|i: int| 0 <= i < k ==> (#[trigger] hex_byte_value(b@[i])) is Some,
        decreases 32 - k,
    {
        if crate::path::hex(b[k]).is_none() {
            assert(hex_byte_value(b@[k as int]) is None);
            assert(!is_stable_id_text(b@));
            return Err(ProjectPersistenceError::UnknownRecoveryAcceptance);
        }
        k = k + 1;
    }
    let mut bytes: [u8; 16] = [0; 16];
    let mut i: usize = 0;
    while i < 16
        invariant
            i <= 16,
            b@.len() == 32,
            b@ == vstd::utf8::encode_utf8(value@),
            is_stable_id_text(b@),
            forall|t: int| 0 <= t < i ==> #[trigger] bytes@[t] == stable_id_byte(b@, t),
        decreases 16 - i,
    {
        assert(hex_byte_value(b@[2 * i as int]) is Some);
        assert(hex_byte_value(b@[2 * i + 1]) is Some);
        let high = match crate::path::hex(b[2 * i]) {
            Some(v) => v,
            None => 0,
        };
        let low = match crate::path::hex(b[2 * i + 1]) {
            Some(v) => v,
            None => 0,
        };
        let byte: u8 = high * 16 + low;
        bytes[i] = byte;
        i = i + 1;
    }
    assert(bytes@ =~= Seq::new(16, |t: int| stable_id_byte(b@, t)));
    Ok(bytes)
}

} // verus!

verus! {

proof fn lemma_hex_digit_code(d: nat)
    requires
        d < 16,
    ensures
        hex_digit(d) as u32 == if d < 10 {
            48 + d
        } else {
            87 + d
        },
{
}

proof fn lemma_hex_text_digits(bytes: Seq<u8>)
    ensures
        hex_text(bytes).len() == 2 * bytes.len(),
        forall|i: int|
            0 <= i < bytes.len() ==> hex_text(bytes)[2 * i] == hex_digit((bytes[i] / 16) as nat)
                && hex_text(bytes)[2 * i + 1] == hex_digit((bytes[i] % 16) as nat),
    decreases bytes.len(),
{
    if bytes.len() > 0 {
        let front = bytes.drop_last();
        lemma_hex_text_digits(front);
        assert forall|i: int| 0 <= i < bytes.len() implies hex_text(bytes)[2 * i] == hex_digit(
            (bytes[i] / 16) as nat,
        ) && hex_text(bytes)[2 * i + 1] == hex_digit((bytes[i] % 16) as nat) by {
            if i < front.len() {
                assert(front[i] == bytes[i]);
            }
        }
    }
}

proof fn lemma_encode_ascii(s: Seq<char>)
    requires
        forall|i: int| 0 <= i < s.len() ==> (#[trigger] s[i] as u32) < 0x80,
    ensures
        vstd::utf8::encode_utf8(s).len() == s.len(),
        forall|i: int|
            0 <= i < s.len() ==> #[trigger] vstd::utf8::encode_utf8(s)[i] == (s[i] as u32) as u8,
    decreases s.len(),
{
    if s.len() > 0 {
        let c = s[0] as u32;
        assert(c < 0x80);
        assert((c & 0x7F) == c) by (bit_vector)
            requires
                c < 0x80,
        ;
        let rest = s.drop_first();
        assert forall|i: int| 0 <= i < rest.len() implies (#[trigger] rest[i] as u32) < 0x80 by {
            assert(rest[i] == s[i + 1]);
        }
        lemma_encode_ascii(rest);
        let head = vstd::utf8::encode_scalar(c);
        assert(head =~= seq![(c & 0x7F) as u8]);
        assert(vstd::utf8::encode_utf8(s) == head + vstd::utf8::encode_utf8(rest));
        assert forall|i: int| 0 <= i < s.len() implies #[trigger] vstd::utf8::encode_utf8(s)[i]
            == (s[i] as u32) as u8 by {
            if i > 0 {
                assert(rest[i - 1] == s[i]);
            }
        }
    }
}

/// The stable spelling of an identifier is 32 lowercase hexadecimal digits,
/// and it parses back to the same bytes: `parse_stable_id(stable_id_text(b))`
/// is `Ok(b)`.
pub proof fn lemma_stable_id_round_trip(bytes: Seq<u8>)
    requires
        bytes.len() == 16,
    ensures
        hex_text(bytes).len() == 32,
        forall|k: int|
            0 <= k < 32 ==> {
                let c = #[trigger] hex_text(bytes)[k] as u32;
                (0x30 <= c <= 0x39) || (0x61 <= c <= 0x66)
            },
        parsed_stable_id(hex_text(bytes)) == Some(bytes),
        is_stable_id_text(vstd::utf8::encode_utf8(hex_text(bytes))),
        forall|i: int|
            0 <= i < 16 ==> #[trigger] stable_id_byte(vstd::utf8::encode_utf8(hex_text(bytes)), i)
                == bytes[i],
{
    let text = hex_text(bytes);
    lemma_hex_text_digits(bytes);
    assert forall|k: int| 0 <= k < text.len() implies (#[trigger] text[k] as u32) < 0x80 by {
        let i = k / 2;
        assert(0 <= i < 16);
        if k % 2 == 0 {
            assert(k == 2 * i);
            lemma_hex_digit_code((bytes[i] / 16) as nat);
        } else {
            assert(k == 2 * i + 1);
            lemma_hex_digit_code((bytes[i] % 16) as nat);
        }
    }
    lemma_encode_ascii(text);
    let encoded = vstd::utf8::encode_utf8(text);
    assert forall|k: int| 0 <= k < 32 implies (#[trigger] hex_byte_value(encoded[k])) is Some by {
        let i = k / 2;
        assert(0 <= i < 16);
        if k % 2 == 0 {
            assert(k == 2 * i);
            lemma_hex_digit_code((bytes[i] / 16) as nat);
        } else {
            assert(k == 2 * i + 1);
            lemma_hex_digit_code((bytes[i] % 16) as nat);
        }
        assert(encoded[k] == (text[k] as u32) as u8);
    }
    assert forall|i: int| 0 <= i < 16 implies #[trigger] stable_id_byte(encoded, i) == bytes[i] by {
        assert(encoded[2 * i] == (text[2 * i] as u32) as u8);
        assert(encoded[2 * i + 1] == (text[2 * i + 1] as u32) as u8);
        let hi = bytes[i] / 16;
        let lo = bytes[i] % 16;
        lemma_hex_digit_code(hi as nat);
        lemma_hex_digit_code(lo as nat);
        assert(hex_byte_value(encoded[2 * i]) == Some(hi));
        assert(hex_byte_value(encoded[2 * i + 1]) == Some(lo));
    }
    assert(Seq::new(16, |i: int| stable_id_byte(encoded, i)) =~= bytes);
    assert forall|k: int| 0 <= k < 32 implies {
        let c = #[trigger] text[k] as u32;
        (0x30 <= c <= 0x39) || (0x61 <= c <= 0x66)
    } by {
        let i = k / 2;
        if k % 2 == 0 {
            assert(k == 2 * i);
            lemma_hex_digit_code((bytes[i] / 16) as nat);
        } else {
            assert(k == 2 * i + 1);
            lemma_hex_digit_code((bytes[i] % 16) as nat);
        }
    }
}

} // verus!

verus! {

/// The revision and visibility the live project holds for `document`: the
/// last state listed for it.
pub open spec fn current_state(
    current: Seq<(u128, u64, DocumentVisibility)>,
    document: u128,
) -> Option<(u64, DocumentVisibility)>
    decreases current.len(),
{
    if current.len() == 0 {
        None
    } else if current.last().0 == document {
        Some((current.last().1, current.last().2))
    } else {
        current_state(current.drop_last(), document)
    }
}

/// One restored document before the open-document rule: its revision moves
/// past both the checkpoint's and the live one (saturating), and it keeps the
/// live visibility, or is closed when the live project does not hold it.
pub open spec fn restored_state(
    restored: (u128, u64),
    current: Seq<(u128, u64, DocumentVisibility)>,
) -> (u128, u64, DocumentVisibility) {
    let (live_revision, visibility) = match current_state(current, restored.0) {
        Some(state) => state,
        None => (0u64, DocumentVisibility::Closed),
    };
    let newest = if restored.1 >= live_revision {
        restored.1
    } else {
        live_revision
    };
    let revision = if newest < u64::MAX {
        (newest + 1) as u64
    } else {
        u64::MAX
    };
    (restored.0, revision, visibility)
}

/// The states of the restored documents, in restored order; when none of
/// them is open, the first is opened.
pub open spec fn restored_states(
    restored: Seq<(u128, u64)>,
    current: Seq<(u128, u64, DocumentVisibility)>,
) -> Seq<(u128, u64, DocumentVisibility)> {
    let base = restored.map_values(|r: (u128, u64)| restored_state(r, current));
    if base.len() > 0 && !(exists|i: int| 0 <= i < base.len() && (#[trigger] base[i]).2 == DocumentVisibility::Open) {
        base.update(0, (base[0].0, base[0].1, DocumentVisibility::Open))
    } else {
        base
    }
}

fn current_state_of(current: &Vec<(u128, u64, DocumentVisibility)>, document: u128) -> (r: Option<
    (u64, DocumentVisibility),
>)
    ensures
        r == current_state(current@, document),
{
    let mut k: usize = current.len();
    assert(current@.take(k as int) =~= current@);
    while k > 0
        invariant
            k <= current@.len(),
            current_state(current@, document) == current_state(current@.take(k as int), document),
        decreases k,
    {
        let ghost t = current@.take(k as int);
        assert(t.last() == current@[k - 1]);
        assert(t.drop_last() =~= current@.take(k - 1));
        let (id, revision, visibility) = current[k - 1];
        if id == document {
            return Some((revision, visibility));
        }
        k = k - 1;
    }
    None
}

/// The document states a history restoration installs: each restored
/// document (with the revision its checkpoint recorded, 0 for none) gets a
/// revision past both the checkpoint's and the live one, so revisions stay
/// monotonic; it keeps its live visibility or is closed; and the first is
/// opened when none is open.
pub fn restored_document_states(
    restored: &Vec<(u128, u64)>,
    current: &Vec<(u128, u64, DocumentVisibility)>,
) -> (r: Vec<(u128, u64, DocumentVisibility)>)
    ensures
        r@ == restored_states(restored@, current@),
{
    let ghost base = restored@.map_values(|x: (u128, u64)| restored_state(x, current@));
    let mut out: Vec<(u128, u64, DocumentVisibility)> = Vec::new();
    let mut any_open = false;
    let mut i: usize = 0;
    while i < restored.len()
        invariant
            i <= restored@.len(),
            base == restored@.map_values(|x: (u128, u64)| restored_state(x, current@)),
            out@ == base.take(i as int),
            any_open == exists|j: int| 0 <= j < i && (#[trigger] base[j]).2 == DocumentVisibility::Open,
        decreases restored.len() - i,
    {
        let (document, historical) = restored[i];
        let (live_revision, visibility) = match current_state_of(current, document) {
            Some(state) => state,
            None => (0u64, DocumentVisibility::Closed),
        };
        let newest = if historical >= live_revision {
            historical
        } else {
            live_revision
        };
        let revision = newest.saturating_add(1);
        proof {
            assert(base[i as int] == (document, revision, visibility));
        }
        if let DocumentVisibility::Open = visibility {
            any_open = true;
        }
        out.push((document, revision, visibility));
        proof {
            assert(out@ =~= base.take(i + 1));
            if visibility == DocumentVisibility::Open {
                assert(base[i as int].2 == DocumentVisibility::Open);
            }
        }
        i = i + 1;
    }
    assert(base.take(i as int) =~= base);
    if !any_open && out.len() > 0 {
        let (document, revision, _) = out[0];
        out.set(0, (document, revision, DocumentVisibility::Open));
    }
    proof {
        assert(out@ =~= restored_states(restored@, current@));
    }
    out
}

} // verus!
