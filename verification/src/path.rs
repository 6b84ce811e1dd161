//! Programmatic path normalization shared by every native dialog result.
//!
//! Paths are handled as strings with POSIX semantics: `/` separates
//! components and a leading `/` makes a path absolute.

use crate::chars::{
    ascii_lower, ascii_lower_seq, chars_of, contains_chars, contains_subseq, find_char,
    first_index_of, slice_chars, string_from_chars, to_ascii_lower, trim_whitespace,
    trim_whitespace_spec,
};
use std::path::PathBuf;
use vstd::prelude::*;
use vstd::utf8::{decode_utf8, encode_utf8, valid_utf8};

verus! {

/// Declares `std::path::PathBuf` to Verus as an opaque type: paths are only
/// carried through the library, never inspected.
#[verifier::external_type_specification]
#[verifier::external_body]
pub struct ExPathBuf(std::path::PathBuf);

/// Declares `std::io::Error` to Verus as an opaque type: I/O errors are only
/// carried through the library, never inspected.
#[verifier::external_type_specification]
#[verifier::external_body]
pub struct ExIoError(std::io::Error);

/// What a selected path is about to be used for.
#[derive(Clone, Copy, Debug, Eq, PartialEq)]
pub enum ProjectPathIntent {
    Open,
    CreateParent,
    FileDestination,
    FileSource,
}

/// Why a path input or a preflight check was rejected.
#[derive(Debug)]
pub enum PathInputError {
    /// Choose a path before continuing.
    Empty,
    /// The selected path contains an invalid NUL character.
    Nul,
    /// The selected URL is malformed.
    MalformedUrl(String),
    /// Remote URLs are not supported; choose a local file or folder.
    RemoteUrl,
    /// The selected path does not exist.
    Missing(PathBuf),
    /// The selected project path is a regular file, not a folder.
    RegularFile(PathBuf),
    /// The selected path is not a regular file.
    NotRegularFile(PathBuf),
    /// The selected parent is not a folder.
    ParentNotDirectory(PathBuf),
    /// The selected location is inaccessible.
    Inaccessible { path: PathBuf, error: std::io::Error },
    /// Enter a project name.
    EmptyProjectName,
    /// Project names cannot be '.' or '..' and cannot contain path separators.
    InvalidProjectName,
    /// A regular file already exists at the new project path.
    DestinationFile(PathBuf),
    /// The new project folder is not empty.
    DestinationNotEmpty(PathBuf),
}

/// The value of one hexadecimal digit byte.
pub open spec fn hex_value(b: u8) -> Option<u8> {
    if 0x30 <= b <= 0x39 {
        Some((b - 0x30) as u8)
    } else if 0x61 <= b <= 0x66 {
        Some((b - 0x61 + 10) as u8)
    } else if 0x41 <= b <= 0x46 {
        Some((b - 0x41 + 10) as u8)
    } else {
        None
    }
}

/// Decodes one hexadecimal digit byte.
pub fn hex(byte: u8) -> (r: Option<u8>)
    ensures
        r == hex_value(byte),
{
    if 0x30 <= byte && byte <= 0x39 {
        Some(byte - 0x30)
    } else if 0x61 <= byte && byte <= 0x66 {
        Some(byte - 0x61 + 10)
    } else if 0x41 <= byte && byte <= 0x46 {
        Some(byte - 0x41 + 10)
    } else {
        None
    }
}

/// Percent-decoding of a byte sequence: `%` followed by two hexadecimal
/// digits stands for the byte they spell; every other byte stands for
/// itself; a `%` without two hexadecimal digits after it is malformed.
pub open spec fn percent_decoded(b: Seq<u8>) -> Option<Seq<u8>>
    decreases b.len(),
{
    if b.len() == 0 {
        Some(Seq::empty())
    } else if b[0] == 0x25 {
        if b.len() >= 3 && hex_value(b[1]) is Some && hex_value(b[2]) is Some {
            match percent_decoded(b.skip(3)) {
                Some(rest) => Some(
                    seq![(hex_value(b[1])->0 as int * 16 + hex_value(b[2])->0 as int) as u8] + rest,
                ),
                None => None,
            }
        } else {
            None
        }
    } else {
        match percent_decoded(b.drop_first()) {
            Some(rest) => Some(seq![b[0]] + rest),
            None => None,
        }
    }
}

/// `String::from_utf8`: `Ok` exactly when the bytes are valid UTF-8, with
/// the characters they encode.
#[verifier::external_body]
pub(crate) fn string_from_utf8(bytes: Vec<u8>) -> (r: Option<String>)
    ensures
        r matches Some(s) ==> valid_utf8(bytes@) && s@ == decode_utf8(bytes@),
        r is None ==> !valid_utf8(bytes@),
{
    String::from_utf8(bytes).ok()
}

/// Percent-decodes `value` once; the decoded bytes must be UTF-8.
fn percent_decode(value: &str) -> (r: Result<String, PathInputError>)
    ensures
        r matches Ok(s) ==> percent_decoded(encode_utf8(value@)) matches Some(d) && valid_utf8(d)
            && s@ == decode_utf8(d),
        r matches Err(e) ==> e matches PathInputError::MalformedUrl(m) && m@ == value@ && (
        percent_decoded(encode_utf8(value@)) matches Some(d) ==> !valid_utf8(d)),
        r is Err || r is Ok,
{
    let bytes = value.as_bytes();
    let ghost all = bytes@;
    let mut output: Vec<u8> = Vec::new();
    let mut index: usize = 0;
    assert(all.skip(0) =~= all);
    while index < bytes.len()
        invariant
            index <= bytes@.len(),
            bytes@ == all,
            all == encode_utf8(value@),
            percent_decoded(all) == match percent_decoded(all.skip(index as int)) {
                Some(rest) => Some(output@ + rest),
                None => None::<Seq<u8>>,
            },
        decreases bytes.len() - index,
    {
        let ghost tail = all.skip(index as int);
        if bytes[index] == 0x25 {
            let high = if bytes.len() - index > 1 {
                hex(bytes[index + 1])
            } else {
                None
            };
            let low = if bytes.len() - index > 2 {
                hex(bytes[index + 2])
            } else {
                None
            };
            match (high, low) {
                (Some(h), Some(l)) => {
                    proof {
                        assert(tail[1] == bytes@[index + 1]);
                        assert(tail[2] == bytes@[index + 2]);
                        assert(tail.skip(3) =~= all.skip(index + 3));
                        assert(h < 16 && l < 16);
                    }
                    let byte: u8 = h * 16 + l;
                    assert(byte == (h as int * 16 + l as int) as u8);
                    let ghost before = output@;
                    output.push(byte);
                    proof {
                        assert forall|rest: Seq<u8>| before + (seq![byte] + rest) == output@ + rest by {
                            assert(before + (seq![byte] + rest) =~= output@ + rest);
                        }
                    }
                    index = index + 3;
                },
                _ => {
                    return Err(PathInputError::MalformedUrl(string_from_chars(&chars_of(value))));
                },
            }
        } else {
            proof {
                assert(tail.drop_first() =~= all.skip(index + 1));
            }
            let ghost before = output@;
            output.push(bytes[index]);
            proof {
                assert forall|rest: Seq<u8>| before + (seq![bytes@[index as int]] + rest) == output@
                    + rest by {
                    assert(before + (seq![bytes@[index as int]] + rest) =~= output@ + rest);
                }
            }
            index = index + 1;
        }
    }
    assert(all.skip(index as int) =~= Seq::<u8>::empty());
    assert(output@ + Seq::<u8>::empty() =~= output@);
    match string_from_utf8(output) {
        Some(s) => Ok(s),
        None => Err(PathInputError::MalformedUrl(string_from_chars(&chars_of(value)))),
    }
}

} // verus!

verus! {

/// `file:` spelled in lowercase.
pub open spec fn file_scheme() -> Seq<char> {
    seq!['f', 'i', 'l', 'e', ':']
}

/// `localhost` spelled in lowercase.
pub open spec fn localhost_authority() -> Seq<char> {
    seq!['l', 'o', 'c', 'a', 'l', 'h', 'o', 's', 't']
}

/// The input begins with `file:` in any ASCII case.
pub open spec fn has_file_scheme(t: Seq<char>) -> bool {
    t.len() >= 5 && ascii_lower_seq(t.take(5)) == file_scheme()
}

/// The still-encoded path of a `file:` URL: what follows `file:`, or, when
/// that begins with `//`, what follows the authority. `None` when the
/// authority names a host other than `localhost` (in any ASCII case).
pub open spec fn file_url_path(t: Seq<char>) -> Option<Seq<char>> {
    let rest = t.skip(5);
    if rest.len() >= 2 && rest[0] == '/' && rest[1] == '/' {
        let after = rest.skip(2);
        let authority = match first_index_of(after, '/') {
            Some(i) => after.take(i),
            None => after,
        };
        let path = match first_index_of(after, '/') {
            Some(i) => after.skip(i),
            None => Seq::empty(),
        };
        if authority.len() > 0 && ascii_lower_seq(authority) != localhost_authority() {
            None
        } else {
            Some(path)
        }
    } else {
        Some(rest)
    }
}

/// Outcome of decoding a `file:` URL.
pub ghost enum UrlDecoding {
    Decoded(Seq<char>),
    Remote,
    Malformed(Seq<char>),
}

/// A `file:` URL is decoded exactly once: a remote authority is refused, an
/// empty path is malformed (reporting the whole URL), and a path whose
/// percent-escapes are broken or spell non-UTF-8 bytes is malformed
/// (reporting the path).
pub open spec fn file_url_decoding(t: Seq<char>) -> UrlDecoding {
    match file_url_path(t) {
        None => UrlDecoding::Remote,
        Some(path) => if path.len() == 0 {
            UrlDecoding::Malformed(t)
        } else {
            match percent_decoded(encode_utf8(path)) {
                Some(d) => if valid_utf8(d) {
                    UrlDecoding::Decoded(decode_utf8(d))
                } else {
                    UrlDecoding::Malformed(path)
                },
                None => UrlDecoding::Malformed(path),
            }
        },
    }
}

fn is_localhost(authority: &Vec<char>) -> (r: bool)
    ensures
        r == (ascii_lower_seq(authority@) == localhost_authority()),
{
    let lowered = crate::chars::ascii_lower_chars(authority);
    let expected = vec!['l', 'o', 'c', 'a', 'l', 'h', 'o', 's', 't'];
    assert(expected@ =~= localhost_authority());
    crate::chars::chars_equal(&lowered, &expected)
}

fn decode_file_url(value: &str) -> (r: Result<String, PathInputError>)
    requires
        has_file_scheme(value@),
    ensures
        match file_url_decoding(value@) {
            UrlDecoding::Decoded(d) => r matches Ok(s) && s@ == d,
            UrlDecoding::Remote => r matches Err(PathInputError::RemoteUrl),
            UrlDecoding::Malformed(m) => r matches Err(PathInputError::MalformedUrl(s)) && s@ == m,
        },
{
    let chars = chars_of(value);
    let mut rest = slice_chars(&chars, 5, chars.len());
    assert(rest@ =~= value@.skip(5));
    if rest.len() >= 2 && rest[0] == '/' && rest[1] == '/' {
        let after = slice_chars(&rest, 2, rest.len());
        assert(after@ =~= value@.skip(5).skip(2));
        let (authority, path) = match find_char(&after, '/') {
            Some(i) => (slice_chars(&after, 0, i), slice_chars(&after, i, after.len())),
            None => (slice_chars(&after, 0, after.len()), Vec::new()),
        };
        proof {
            assert(after@.take(after@.len() as int) =~= after@);
            match first_index_of(after@, '/') {
                Some(i) => {
                    assert(authority@ =~= after@.take(i));
                    assert(path@ =~= after@.skip(i));
                },
                None => {
                    assert(path@ =~= Seq::<char>::empty());
                },
            }
        }
        if authority.len() > 0 && !is_localhost(&authority) {
            return Err(PathInputError::RemoteUrl);
        }
        rest = path;
    }
    if rest.len() == 0 {
        return Err(PathInputError::MalformedUrl(string_from_chars(&chars)));
    }
    let encoded = string_from_chars(&rest);
    percent_decode(&encoded)
}

/// Maximal runs of non-`/` characters: the components of a POSIX path
/// (empty components between repeated separators do not exist).
pub open spec fn slash_runs(s: Seq<char>) -> Seq<Seq<char>>
    decreases s.len(),
{
    if s.len() == 0 {
        Seq::empty()
    } else {
        let prefix = s.drop_last();
        let runs = slash_runs(prefix);
        let c = s.last();
        if c == '/' {
            runs
        } else if prefix.len() > 0 && prefix.last() != '/' {
            runs.drop_last().push(runs.last().push(c))
        } else {
            runs.push(seq![c])
        }
    }
}

fn split_slash_runs(s: &Vec<char>) -> (runs: Vec<Vec<char>>)
    ensures
        runs@.len() == slash_runs(s@).len(),
        forall|k: int| 0 <= k < runs@.len() ==> #[trigger] runs@[k]@ == slash_runs(s@)[k],
{
    let mut done: Vec<Vec<char>> = Vec::new();
    let mut current: Vec<char> = Vec::new();
    let mut in_run = false;
    let mut i: usize = 0;
    while i < s.len()
        invariant
            i <= s.len(),
            in_run == (i > 0 && s@[i - 1] != '/'),
            in_run ==> ({
                let w = slash_runs(s@.take(i as int));
                &&& w.len() == done@.len() + 1
                &&& w.last() == current@
                &&& forall|k: int| 0 <= k < done@.len() ==> #[trigger] done@[k]@ == w[k]
            }),
            !in_run ==> ({
                let w = slash_runs(s@.take(i as int));
                &&& w.len() == done@.len()
                &&& forall|k: int| 0 <= k < done@.len() ==> #[trigger] done@[k]@ == w[k]
            }),
        decreases s.len() - i,
    {
        let c = s[i];
        let ghost prev = s@.take(i as int);
        let ghost next = s@.take(i + 1);
        assert(next.drop_last() =~= prev);
        assert(next.last() == c);
        if c == '/' {
            if in_run {
                let w = current;
                current = Vec::new();
                done.push(w);
            }
            in_run = false;
        } else {
            if in_run {
                current.push(c);
            } else {
                current = Vec::new();
                current.push(c);
                assert(current@ =~= seq![c]);
            }
            in_run = true;
        }
        i = i + 1;
        proof {
            let w = slash_runs(next);
            if in_run {
                assert(w.last() == current@);
            }
        }
    }
    assert(s@.take(i as int) =~= s@);
    if in_run {
        done.push(current);
    }
    done
}

/// One lexical normalization step: `.` is dropped; `..` removes the previous
/// component unless that is itself `..`, is kept at the start of a relative
/// path, and is dropped at the root of an absolute path.
pub open spec fn normalize_step(parts: Seq<Seq<char>>, component: Seq<char>, absolute: bool) -> Seq<
    Seq<char>,
> {
    if component == seq!['.'] {
        parts
    } else if component == seq!['.', '.'] {
        if parts.len() > 0 && parts.last() != seq!['.', '.'] {
            parts.drop_last()
        } else if !absolute {
            parts.push(component)
        } else {
            parts
        }
    } else {
        parts.push(component)
    }
}

/// Lexical normalization of a component list, left to right.
pub open spec fn normalized_components(components: Seq<Seq<char>>, absolute: bool) -> Seq<Seq<char>>
    decreases components.len(),
{
    if components.len() == 0 {
        Seq::empty()
    } else {
        normalize_step(
            normalized_components(components.drop_last(), absolute),
            components.last(),
            absolute,
        )
    }
}

/// Components joined by `/`.
pub open spec fn join_components(parts: Seq<Seq<char>>) -> Seq<char>
    decreases parts.len(),
{
    if parts.len() == 0 {
        Seq::empty()
    } else if parts.len() == 1 {
        parts[0]
    } else {
        join_components(parts.drop_last()) + seq!['/'] + parts.last()
    }
}

/// A POSIX path is absolute when it begins with `/`.
pub open spec fn is_absolute_path(p: Seq<char>) -> bool {
    p.len() > 0 && p[0] == '/'
}

/// `Path::join` on POSIX: an absolute `p` replaces `base`; otherwise `p` is
/// appended after a separator unless `base` is empty or already ends in one.
pub open spec fn join_path(base: Seq<char>, p: Seq<char>) -> Seq<char> {
    if is_absolute_path(p) {
        p
    } else if base.len() > 0 && base.last() != '/' {
        base + seq!['/'] + p
    } else {
        base + p
    }
}

/// Lexical normalization of a path without consulting the file system:
/// repeated separators and `.` components disappear and `..` is resolved
/// against the preceding components.
pub open spec fn lexically_normal(p: Seq<char>) -> Seq<char> {
    let parts = normalized_components(slash_runs(p), is_absolute_path(p));
    if is_absolute_path(p) {
        seq!['/'] + join_components(parts)
    } else {
        join_components(parts)
    }
}

fn is_dot(c: &Vec<char>) -> (r: bool)
    ensures
        r == (c@ == seq!['.']),
{
    let r = c.len() == 1 && c[0] == '.';
    if r {
        assert(c@ =~= seq!['.']);
    }
    r
}

fn is_dot_dot(c: &Vec<char>) -> (r: bool)
    ensures
        r == (c@ == seq!['.', '.']),
{
    let r = c.len() == 2 && c[0] == '.' && c[1] == '.';
    if r {
        assert(c@ =~= seq!['.', '.']);
    }
    r
}

fn lexically_normalize(path: &Vec<char>) -> (r: Vec<char>)
    ensures
        r@ == lexically_normal(path@),
{
    let absolute = path.len() > 0 && path[0] == '/';
    let components = split_slash_runs(path);
    let ghost comps = slash_runs(path@);
    let mut parts: Vec<Vec<char>> = Vec::new();
    let mut i: usize = 0;
    while i < components.len()
        invariant
            i <= components@.len(),
            absolute == is_absolute_path(path@),
            comps == slash_runs(path@),
            components@.len() == comps.len(),
            forall|k: int| 0 <= k < components@.len() ==> #[trigger] components@[k]@ == comps[k],
            parts@.len() == normalized_components(comps.take(i as int), absolute).len(),
            forall|k: int|
                0 <= k < parts@.len() ==> #[trigger] parts@[k]@ == normalized_components(
                    comps.take(i as int),
                    absolute,
                )[k],
        decreases components.len() - i,
    {
        let ghost before = normalized_components(comps.take(i as int), absolute);
        assert(comps.take(i + 1).drop_last() =~= comps.take(i as int));
        assert(comps.take(i + 1).last() == components@[i as int]@);
        let component = &components[i];
        if is_dot(component) {
        } else if is_dot_dot(component) {
            let last_is_parent = parts.len() > 0 && is_dot_dot(&parts[parts.len() - 1]);
            if parts.len() > 0 && !last_is_parent {
                assert(before.last() == parts@[parts@.len() - 1]@);
                parts.pop();
            } else if !absolute {
                parts.push(component.clone());
            }
        } else {
            parts.push(component.clone());
        }
        i = i + 1;
    }
    assert(comps.take(i as int) =~= comps);
    let ghost np = normalized_components(comps, absolute);
    let mut out: Vec<char> = Vec::new();
    if absolute {
        out.push('/');
    }
    let mut k: usize = 0;
    assert(np.take(0) =~= Seq::<Seq<char>>::empty());
    while k < parts.len()
        invariant
            k <= parts@.len(),
            parts@.len() == np.len(),
            forall|t: int| 0 <= t < parts@.len() ==> #[trigger] parts@[t]@ == np[t],
            out@ == (if absolute {
                seq!['/']
            } else {
                Seq::empty()
            }) + join_components(np.take(k as int)),
        decreases parts.len() - k,
    {
        let ghost prev = out@;
        assert(np.take(k + 1).drop_last() =~= np.take(k as int));
        if k > 0 {
            out.push('/');
        }
        let mut piece = parts[k].clone();
        out.append(&mut piece);
        k = k + 1;
        proof {
            if k == 1 {
                assert(np.take(1) =~= seq![np[0]]);
            }
            assert(out@ =~= (if absolute {
                seq!['/']
            } else {
                Seq::empty()
            }) + join_components(np.take(k as int)));
        }
    }
    assert(np.take(k as int) =~= np);
    proof {
        if !absolute {
            assert(Seq::<char>::empty() + join_components(np) =~= join_components(np));
        }
    }
    out
}

} // verus!

verus! {

/// `~` alone or `~/…` (or `~\…`) is anchored at the home folder when one is
/// known; anything else is left as typed.
pub open spec fn expand_home(d: Seq<char>, home: Option<Seq<char>>) -> Seq<char> {
    if d == seq!['~'] {
        match home {
            Some(h) => h,
            None => d,
        }
    } else if d.len() >= 2 && d[0] == '~' && (d[1] == '/' || d[1] == '\\') {
        match home {
            Some(h) => join_path(h, d.skip(2)),
            None => d,
        }
    } else {
        d
    }
}

/// A decoded path made absolute against the Documents folder and lexically
/// normalized.
pub open spec fn resolved_path(d: Seq<char>, documents: Seq<char>, home: Option<Seq<char>>) -> Seq<
    char,
> {
    let expanded = expand_home(d, home);
    let full = if is_absolute_path(expanded) {
        expanded
    } else {
        join_path(documents, expanded)
    };
    lexically_normal(full)
}

/// Outcome of normalizing one path input.
pub ghost enum PathOutcome {
    Normalized(Seq<char>),
    Empty,
    Nul,
    Malformed(Seq<char>),
    Remote,
}

/// What `normalize_path_input` owes for an input: the trimmed input must be
/// non-empty and free of NUL; a `file:` URL is decoded once; any other text
/// containing `://` is a remote URL; the result is resolved and normalized.
pub open spec fn path_input_outcome(
    input: Seq<char>,
    documents: Seq<char>,
    home: Option<Seq<char>>,
) -> PathOutcome {
    let t = trim_whitespace_spec(input);
    if t.len() == 0 {
        PathOutcome::Empty
    } else if t.contains('\0') {
        PathOutcome::Nul
    } else if has_file_scheme(t) {
        match file_url_decoding(t) {
            UrlDecoding::Decoded(d) => PathOutcome::Normalized(resolved_path(d, documents, home)),
            UrlDecoding::Remote => PathOutcome::Remote,
            UrlDecoding::Malformed(m) => PathOutcome::Malformed(m),
        }
    } else if contains_subseq(t, seq![':', '/', '/']) {
        PathOutcome::Remote
    } else {
        PathOutcome::Normalized(resolved_path(t, documents, home))
    }
}

/// The returned value is the one `outcome` describes.
pub open spec fn path_result_matches(r: Result<String, PathInputError>, outcome: PathOutcome) -> bool {
    match outcome {
        PathOutcome::Normalized(p) => r matches Ok(s) && s@ == p,
        PathOutcome::Empty => r matches Err(PathInputError::Empty),
        PathOutcome::Nul => r matches Err(PathInputError::Nul),
        PathOutcome::Malformed(m) => r matches Err(PathInputError::MalformedUrl(s)) && s@ == m,
        PathOutcome::Remote => r matches Err(PathInputError::RemoteUrl),
    }
}

fn has_file_scheme_chars(t: &Vec<char>) -> (r: bool)
    ensures
        r == has_file_scheme(t@),
{
    if t.len() < 5 {
        return false;
    }
    let head = slice_chars(t, 0, 5);
    let lowered = crate::chars::ascii_lower_chars(&head);
    let expected = vec!['f', 'i', 'l', 'e', ':'];
    assert(expected@ =~= file_scheme());
    assert(head@ =~= t@.take(5));
    crate::chars::chars_equal(&lowered, &expected)
}

fn join_path_chars(base: &Vec<char>, p: &Vec<char>) -> (r: Vec<char>)
    ensures
        r@ == join_path(base@, p@),
{
    if p.len() > 0 && p[0] == '/' {
        return p.clone();
    }
    let mut r = base.clone();
    if base.len() > 0 && base[base.len() - 1] != '/' {
        r.push('/');
    }
    let mut tail = p.clone();
    r.append(&mut tail);
    r
}

/// Converts a dialog or typed input into a normalized absolute path without
/// consulting the process working directory. Relative paths are anchored at
/// the platform Documents location supplied by the caller, `~` at the home
/// folder, and `file:` URLs are decoded exactly once.
pub fn normalize_path_input(input: &str, documents: &str, home: Option<&str>) -> (r: Result<
    String,
    PathInputError,
>)
    ensures
        path_result_matches(
            r,
            path_input_outcome(
                input@,
                documents@,
                match home {
                    Some(h) => Some(h@),
                    None => None,
                },
            ),
        ),
{
    let ghost home_view = match home {
        Some(h) => Some(h@),
        None => None::<Seq<char>>,
    };
    let trimmed = trim_whitespace(&chars_of(input));
    if trimmed.len() == 0 {
        return Err(PathInputError::Empty);
    }
    if crate::chars::contains_char(&trimmed, '\0') {
        return Err(PathInputError::Nul);
    }
    let decoded = if has_file_scheme_chars(&trimmed) {
        let text = string_from_chars(&trimmed);
        match decode_file_url(&text) {
            Ok(d) => chars_of(&d),
            Err(e) => {
                return Err(e);
            },
        }
    } else {
        let scheme_separator = vec![':', '/', '/'];
        if contains_chars(&trimmed, &scheme_separator) {
            return Err(PathInputError::RemoteUrl);
        }
        trimmed
    };
    let tilde = vec!['~'];
    assert(tilde@ =~= seq!['~']);
    let expanded = if crate::chars::chars_equal(&decoded, &tilde) {
        match home {
            Some(h) => chars_of(h),
            None => decoded,
        }
    } else if decoded.len() >= 2 && decoded[0] == '~' && (decoded[1] == '/' || decoded[1] == '\\') {
        match home {
            Some(h) => {
                let rest = slice_chars(&decoded, 2, decoded.len());
                assert(rest@ =~= decoded@.skip(2));
                join_path_chars(&chars_of(h), &rest)
            },
            None => decoded,
        }
    } else {
        decoded
    };
    assert(expanded@ == expand_home(decoded@, home_view));
    let full = if expanded.len() > 0 && expanded[0] == '/' {
        expanded
    } else {
        join_path_chars(&chars_of(documents), &expanded)
    };
    let normalized = lexically_normalize(&full);
    Ok(string_from_chars(&normalized))
}

/// The trimmed project name is refused when it is empty, is `.` or `..`, or
/// contains `/`, `\`, or NUL.
pub open spec fn project_name_outcome(name: Seq<char>) -> Option<bool> {
    let t = trim_whitespace_spec(name);
    if t.len() == 0 {
        Some(false)
    } else if t == seq!['.'] || t == seq!['.', '.'] || t.contains('/') || t.contains('\\')
        || t.contains('\0') {
        Some(true)
    } else {
        None
    }
}

/// Validates a new project's folder name and returns it trimmed; the caller
/// joins it to an already validated parent folder.
pub fn validate_project_name(name: &str) -> (r: Result<String, PathInputError>)
    ensures
        r matches Ok(s) ==> project_name_outcome(name@) is None && s@ == trim_whitespace_spec(name@),
        r matches Err(e) ==> (e matches PathInputError::EmptyProjectName && project_name_outcome(name@)
            == Some(false)) || (e matches PathInputError::InvalidProjectName
            && project_name_outcome(name@) == Some(true)),
{
    let trimmed = trim_whitespace(&chars_of(name));
    if trimmed.len() == 0 {
        return Err(PathInputError::EmptyProjectName);
    }
    let dot = vec!['.'];
    let dot_dot = vec!['.', '.'];
    assert(dot@ =~= seq!['.']);
    assert(dot_dot@ =~= seq!['.', '.']);
    if crate::chars::chars_equal(&trimmed, &dot) || crate::chars::chars_equal(&trimmed, &dot_dot)
        || crate::chars::contains_char(&trimmed, '/') || crate::chars::contains_char(&trimmed, '\\')
        || crate::chars::contains_char(&trimmed, '\0') {
        return Err(PathInputError::InvalidProjectName);
    }
    Ok(string_from_chars(&trimmed))
}

} // verus!

verus! {

/// A path component: non-empty and free of `/`.
spec fn is_plain(w: Seq<char>) -> bool {
    w.len() > 0 && forall|i: int| 0 <= i < w.len() ==> w[i] != '/'
}

spec fn all_plain(parts: Seq<Seq<char>>) -> bool {
    forall|k: int| 0 <= k < parts.len() ==> is_plain(#[trigger] parts[k])
}

/// No component is `.` or `..`.
spec fn no_dots(parts: Seq<Seq<char>>) -> bool {
    forall|k: int|
        0 <= k < parts.len() ==> #[trigger] parts[k] != seq!['.'] && parts[k] != seq!['.', '.']
}

proof fn lemma_slash_runs_plain(s: Seq<char>)
    ensures
        all_plain(slash_runs(s)),
        s.len() > 0 && s.last() != '/' ==> slash_runs(s).len() > 0,
    decreases s.len(),
{
    if s.len() > 0 {
        let prefix = s.drop_last();
        lemma_slash_runs_plain(prefix);
        let runs = slash_runs(prefix);
        let c = s.last();
        if c != '/' {
            if prefix.len() > 0 && prefix.last() != '/' {
                let w = runs.last().push(c);
                assert(is_plain(runs[runs.len() - 1]));
                assert(is_plain(w));
                let out = runs.drop_last().push(w);
                assert forall|k: int| 0 <= k < out.len() implies is_plain(#[trigger] out[k]) by {
                    if k < out.len() - 1 {
                        assert(out[k] == runs[k]);
                    }
                }
            } else {
                let out = runs.push(seq![c]);
                assert(is_plain(seq![c]));
                assert forall|k: int| 0 <= k < out.len() implies is_plain(#[trigger] out[k]) by {
                    if k < out.len() - 1 {
                        assert(out[k] == runs[k]);
                    }
                }
            }
        }
    }
}

proof fn lemma_slash_runs_append(s: Seq<char>, w: Seq<char>)
    requires
        is_plain(w),
    ensures
        slash_runs(s + seq!['/'] + w) == slash_runs(s).push(w),
    decreases w.len(),
{
    let x = s + seq!['/'] + w;
    let slashed = s + seq!['/'];
    assert(slashed.drop_last() =~= s);
    assert(slash_runs(slashed) == slash_runs(s));
    if w.len() == 1 {
        assert(x.drop_last() =~= slashed);
        assert(x.last() == w[0]);
        assert(seq![w[0]] =~= w);
    } else {
        let front = w.drop_last();
        assert(is_plain(front)) by {
            assert forall|i: int| 0 <= i < front.len() implies front[i] != '/' by {
                assert(front[i] == w[i]);
            }
        }
        lemma_slash_runs_append(s, front);
        assert(x.drop_last() =~= s + seq!['/'] + front);
        assert(x.last() == w[w.len() - 1]);
        assert((s + seq!['/'] + front).last() == front[front.len() - 1]);
        assert(front.push(w.last()) =~= w);
    }
}

proof fn lemma_slash_runs_join(parts: Seq<Seq<char>>)
    requires
        all_plain(parts),
    ensures
        slash_runs(seq!['/'] + join_components(parts)) == parts,
    decreases parts.len(),
{
    if parts.len() == 0 {
        let t = seq!['/'] + join_components(parts);
        assert(t =~= seq!['/']);
        assert(t.drop_last() =~= Seq::<char>::empty());
        assert(t.last() == '/');
        assert(slash_runs(Seq::<char>::empty()) == Seq::<Seq<char>>::empty());
        assert(parts =~= Seq::<Seq<char>>::empty());
    } else if parts.len() == 1 {
        assert(is_plain(parts[0]));
        lemma_slash_runs_append(Seq::empty(), parts[0]);
        assert(seq!['/'] + join_components(parts) =~= Seq::<char>::empty() + seq!['/'] + parts[0]);
        assert(Seq::<Seq<char>>::empty().push(parts[0]) =~= parts);
    } else {
        let front = parts.drop_last();
        assert(all_plain(front)) by {
            assert forall|k: int| 0 <= k < front.len() implies is_plain(#[trigger] front[k]) by {
                assert(front[k] == parts[k]);
            }
        }
        lemma_slash_runs_join(front);
        assert(is_plain(parts[parts.len() - 1]));
        lemma_slash_runs_append(seq!['/'] + join_components(front), parts.last());
        assert(seq!['/'] + join_components(parts) =~= (seq!['/'] + join_components(front)) + seq![
            '/',
        ] + parts.last());
        assert(front.push(parts.last()) =~= parts);
    }
}

proof fn lemma_normalized_plain(components: Seq<Seq<char>>)
    requires
        all_plain(components),
    ensures
        all_plain(normalized_components(components, true)),
        no_dots(normalized_components(components, true)),
    decreases components.len(),
{
    if components.len() > 0 {
        let front = components.drop_last();
        assert(all_plain(front)) by {
            assert forall|k: int| 0 <= k < front.len() implies is_plain(#[trigger] front[k]) by {
                assert(front[k] == components[k]);
            }
        }
        lemma_normalized_plain(front);
        let prev = normalized_components(front, true);
        let c = components.last();
        assert(is_plain(components[components.len() - 1]));
        let out = normalized_components(components, true);
        assert forall|k: int| 0 <= k < out.len() implies is_plain(#[trigger] out[k]) && out[k]
            != seq!['.'] && out[k] != seq!['.', '.'] by {
            if k < prev.len() {
                assert(out[k] == prev[k]);
            }
        }
    }
}

proof fn lemma_normalized_fixed(parts: Seq<Seq<char>>)
    requires
        no_dots(parts),
    ensures
        normalized_components(parts, true) == parts,
    decreases parts.len(),
{
    if parts.len() > 0 {
        let front = parts.drop_last();
        assert(no_dots(front)) by {
            assert forall|k: int| 0 <= k < front.len() implies #[trigger] front[k] != seq!['.']
                && front[k] != seq!['.', '.'] by {
                assert(front[k] == parts[k]);
            }
        }
        lemma_normalized_fixed(front);
        assert(parts[parts.len() - 1] != seq!['.']);
        assert(front.push(parts.last()) =~= parts);
    }
}

/// `/` followed by plain components joined by `/` never holds two `/` in a
/// row, and ends in a component character when it has a component.
proof fn lemma_join_single_slashes(parts: Seq<Seq<char>>)
    requires
        all_plain(parts),
    ensures
        ({
            let t = seq!['/'] + join_components(parts);
            &&& forall|i: int| 0 <= i < t.len() - 1 ==> !(t[i] == '/' && #[trigger] t[i + 1] == '/')
            &&& parts.len() > 0 ==> t.last() != '/'
        }),
    decreases parts.len(),
{
    let t = seq!['/'] + join_components(parts);
    if parts.len() == 1 {
        assert(is_plain(parts[0]));
        assert(t =~= seq!['/'] + parts[0]);
        assert forall|i: int| 0 <= i < t.len() - 1 implies !(t[i] == '/' && #[trigger] t[i + 1]
            == '/') by {
            assert(t[i + 1] == parts[0][i]);
        }
    } else if parts.len() > 1 {
        let front = parts.drop_last();
        assert(all_plain(front)) by {
            assert forall|k: int| 0 <= k < front.len() implies is_plain(#[trigger] front[k]) by {
                assert(front[k] == parts[k]);
            }
        }
        lemma_join_single_slashes(front);
        let u = seq!['/'] + join_components(front);
        let w = parts.last();
        assert(is_plain(parts[parts.len() - 1]));
        assert(t =~= u + seq!['/'] + w);
        assert forall|i: int| 0 <= i < t.len() - 1 implies !(t[i] == '/' && #[trigger] t[i + 1]
            == '/') by {
            if i < u.len() - 1 {
                assert(t[i] == u[i] && t[i + 1] == u[i + 1]);
            } else if i == u.len() - 1 {
                assert(t[i] == u.last());
            } else if i == u.len() {
                assert(t[i + 1] == w[0]);
            } else {
                assert(t[i] == w[i - u.len() - 1]);
            }
        }
    }
}

/// A normalized absolute path has no `://` in it.
proof fn lemma_no_scheme_separator(parts: Seq<Seq<char>>)
    requires
        all_plain(parts),
    ensures
        !contains_subseq(seq!['/'] + join_components(parts), seq![':', '/', '/']),
{
    let t = seq!['/'] + join_components(parts);
    lemma_join_single_slashes(parts);
    if contains_subseq(t, seq![':', '/', '/']) {
        let i = choose|i: int|
            0 <= i && i + 3 <= t.len() && #[trigger] t.subrange(i, i + 3) == seq![':', '/', '/'];
        let j = i + 1;
        assert(t.subrange(i, i + 3)[1] == t[j]);
        assert(t.subrange(i, i + 3)[2] == t[j + 1]);
        assert(0 <= j < t.len() - 1);
        assert(!(t[j] == '/' && t[j + 1] == '/'));
    }
}

/// Normalizing a lexically normal absolute path changes nothing.
pub proof fn lemma_lexically_normal_idempotent(p: Seq<char>)
    requires
        is_absolute_path(p),
    ensures
        is_absolute_path(lexically_normal(p)),
        lexically_normal(lexically_normal(p)) == lexically_normal(p),
        !contains_subseq(lexically_normal(p), seq![':', '/', '/']),
{
    let parts = normalized_components(slash_runs(p), true);
    lemma_slash_runs_plain(p);
    lemma_normalized_plain(slash_runs(p));
    lemma_slash_runs_join(parts);
    lemma_normalized_fixed(parts);
    lemma_no_scheme_separator(parts);
}

proof fn lemma_resolved_is_normal(d: Seq<char>, documents: Seq<char>, home: Option<Seq<char>>)
    requires
        is_absolute_path(documents),
    ensures
        ({
            let expanded = expand_home(d, home);
            let full = if is_absolute_path(expanded) {
                expanded
            } else {
                join_path(documents, expanded)
            };
            &&& is_absolute_path(full)
            &&& resolved_path(d, documents, home) == lexically_normal(full)
        }),
{
    let expanded = expand_home(d, home);
    if !is_absolute_path(expanded) {
        let joined = join_path(documents, expanded);
        if documents.len() > 0 && documents.last() != '/' {
            assert(joined[0] == documents[0]);
        } else {
            assert(joined[0] == documents[0]);
        }
    }
}

/// Normalizing a path that `normalize_path_input` produced gives it back,
/// whatever the home folder: against an absolute Documents folder every
/// result is absolute and lexically normal. The law holds for results that
/// carry no surrounding whitespace and no NUL (a `file:` URL may decode to
/// either).
pub proof fn lemma_normalized_path_is_fixed(
    input: Seq<char>,
    documents: Seq<char>,
    home: Option<Seq<char>>,
    other_home: Option<Seq<char>>,
    p: Seq<char>,
)
    requires
        is_absolute_path(documents),
        path_input_outcome(input, documents, home) == PathOutcome::Normalized(p),
        trim_whitespace_spec(p) == p,
        !p.contains('\0'),
    ensures
        path_input_outcome(p, documents, other_home) == PathOutcome::Normalized(p),
{
    let t = trim_whitespace_spec(input);
    let d = if has_file_scheme(t) {
        match file_url_decoding(t) {
            UrlDecoding::Decoded(d) => d,
            _ => t,
        }
    } else {
        t
    };
    assert(p == resolved_path(d, documents, home));
    lemma_resolved_is_normal(d, documents, home);
    let expanded = expand_home(d, home);
    let full = if is_absolute_path(expanded) {
        expanded
    } else {
        join_path(documents, expanded)
    };
    lemma_lexically_normal_idempotent(full);
    assert(p[0] == '/');
    assert(!has_file_scheme(p)) by {
        if p.len() >= 5 {
            assert(ascii_lower_seq(p.take(5))[0] == '/');
        }
    }
    assert(p != seq!['~']);
    assert(expand_home(p, other_home) == p);
    lemma_resolved_is_normal(p, documents, other_home);
}

} // verus!
