//! Method strings: the split between a method and its policy, and file paths inside them.
//!
//! A `file:` path inside a method string writes `%` as `%25` and `;` as `%3B`, so that the
//! path cannot be mistaken for a method segment.

use vstd::prelude::*;
use crate::text;
use crate::backends::policy_error;
use crate::backends::llm_policy;
use vstd::slice::slice_subrange;
use crate::backends::llm_policy::LlmPolicy;
use crate::backends::policy_error::{refuse, refuse_plain, ErrorModel, PolicyError, PolicyErrorKind};
use crate::text::{
    chars_of, find_char, is_text, push_chars, push_text, split_char, split_once_text, string_of,
    strip_prefix, trim, trim_start,
};

verus! {

/// Escaped form of one character.
pub open spec fn escaped_char(c: char) -> Seq<char> {
    if c == '%' {
        "%25"@
    } else if c == ';' {
        "%3B"@
    } else {
        seq![c]
    }
}

/// Escaped form of a text.
pub open spec fn escaped(s: Seq<char>) -> Seq<char>
    decreases s.len(),
{
    if s.len() == 0 {
        Seq::empty()
    } else {
        escaped(s.drop_last()) + escaped_char(s.last())
    }
}

/// Whether an escape of `%` begins at index `i`.
pub open spec fn percent_escape_at(s: Seq<char>, i: int) -> bool {
    0 <= i && i + 2 < s.len() && s[i] == '%' && s[i + 1] == '2' && s[i + 2] == '5'
}

/// Whether an escape of `;` begins at index `i`.
pub open spec fn semicolon_escape_at(s: Seq<char>, i: int) -> bool {
    0 <= i && i + 2 < s.len() && s[i] == '%' && s[i + 1] == '3' && (s[i + 2] == 'B' || s[i + 2]
        == 'b')
}

/// Text of `s[i..]` with its escapes replaced; other `%` sequences stay as they are.
pub open spec fn unescaped(s: Seq<char>, i: int) -> Seq<char>
    decreases s.len() - i,
{
    if i < 0 || i >= s.len() {
        Seq::empty()
    } else if percent_escape_at(s, i) {
        seq!['%'] + unescaped(s, i + 3)
    } else if semicolon_escape_at(s, i) {
        seq![';'] + unescaped(s, i + 3)
    } else {
        seq![s[i]] + unescaped(s, i + 1)
    }
}

/// Unescaping depends only on the text that remains.
proof fn lemma_unescaped_shift(a: Seq<char>, b: Seq<char>, i: int)
    requires
        0 <= i <= b.len(),
    ensures
        unescaped(a + b, a.len() + i) == unescaped(b, i),
    decreases b.len() - i,
{
    let s = a + b;
    if i < b.len() {
        assert(s[a.len() + i] == b[i]);
        if i + 2 < b.len() {
            assert(s[a.len() + i + 1] == b[i + 1]);
            assert(s[a.len() + i + 2] == b[i + 2]);
            lemma_unescaped_shift(a, b, i + 3);
        }
        lemma_unescaped_shift(a, b, i + 1);
    }
}

proof fn lemma_escaped_concat(a: Seq<char>, b: Seq<char>)
    ensures
        escaped(a + b) == escaped(a) + escaped(b),
    decreases b.len(),
{
    if b.len() == 0 {
        assert(a + b =~= a);
        assert(escaped(a) + escaped(b) =~= escaped(a));
    } else {
        assert((a + b).drop_last() =~= a + b.drop_last());
        lemma_escaped_concat(a, b.drop_last());
        assert(escaped(a + b) =~= escaped(a) + escaped(b));
    }
}

proof fn lemma_escaped_one(c: char)
    requires
        c != '%',
        c != ';',
    ensures
        escaped(seq![c]) == seq![c],
{
    reveal_with_fuel(escaped, 2);
    assert(seq![c].drop_last() =~= Seq::empty());
    assert(escaped(seq![c]) =~= seq![c]);
}

/// Reading an escaped text back gives the text.
pub proof fn law_unescaped_escaped(s: Seq<char>)
    ensures
        unescaped(escaped(s), 0) == s,
    decreases s.len(),
{
    reveal_strlit("%25");
    reveal_strlit("%3B");
    if s.len() == 0 {
        assert(unescaped(escaped(s), 0) =~= s);
    } else {
        let head = seq![s[0]];
        let rest = s.subrange(1, s.len() as int);
        assert(s =~= head + rest);
        lemma_escaped_concat(head, rest);
        assert(head.drop_last() =~= Seq::empty());
        assert(escaped(head) =~= escaped_char(s[0])) by {
            assert(escaped(head.drop_last()) =~= Seq::<char>::empty());
        }
        law_unescaped_escaped(rest);
        let e = escaped_char(s[0]);
        let all = e + escaped(rest);
        assert(escaped(s) =~= all);
        lemma_unescaped_shift(e, escaped(rest), 0);
        assert(unescaped(all, e.len() as int) == rest);
        if s[0] == '%' {
            assert(all[0] == '%' && all[1] == '2' && all[2] == '5');
            assert(percent_escape_at(all, 0));
        } else if s[0] == ';' {
            assert(all[0] == '%' && all[1] == '3' && all[2] == 'B');
            assert(!percent_escape_at(all, 0));
            assert(semicolon_escape_at(all, 0));
        } else {
            assert(all[0] == s[0]);
        }
        assert(unescaped(all, 0) =~= seq![s[0]] + rest);
    }
}

/// One component of a file path.
#[derive(Debug)]
pub enum PathPiece {
    /// Drive or share prefix.
    Prefix(String),
    /// Root directory.
    RootDir,
    /// Current directory.
    CurDir,
    /// Parent directory.
    ParentDir,
    /// Named entry.
    Normal(String),
}

/// [`PathPiece`] as a mathematical object.
#[verifier::ext_equal]
pub enum PieceModel {
    Prefix(Seq<char>),
    RootDir,
    CurDir,
    ParentDir,
    Normal(Seq<char>),
}

impl View for PathPiece {
    type V = PieceModel;

    open spec fn view(&self) -> PieceModel {
        match self {
            PathPiece::Prefix(prefix) => PieceModel::Prefix(prefix@),
            PathPiece::RootDir => PieceModel::RootDir,
            PathPiece::CurDir => PieceModel::CurDir,
            PathPiece::ParentDir => PieceModel::ParentDir,
            PathPiece::Normal(name) => PieceModel::Normal(name@),
        }
    }
}

/// The components as mathematical objects.
pub open spec fn piece_models(pieces: Seq<PathPiece>) -> Seq<PieceModel> {
    pieces.map_values(|p: PathPiece| p@)
}

/// Components of the first `n` of the names between the slashes of a path. Nothing in front of the
/// first slash is the root; elsewhere an empty name is no component. A single dot is one only at
/// the front.
pub open spec fn pieces_of_names(names: Seq<Seq<char>>, n: int) -> Seq<PieceModel>
    decreases n,
{
    if n <= 0 || n > names.len() {
        Seq::empty()
    } else {
        let before = pieces_of_names(names, n - 1);
        let name = names[n - 1];
        if name.len() == 0 {
            if n == 1 && names.len() > 1 {
                before.push(PieceModel::RootDir)
            } else {
                before
            }
        } else if name == "."@ {
            if n == 1 {
                before.push(PieceModel::CurDir)
            } else {
                before
            }
        } else if name == ".."@ {
            before.push(PieceModel::ParentDir)
        } else {
            before.push(PieceModel::Normal(name))
        }
    }
}

/// Components of a path whose names stand between slashes.
pub open spec fn pieces_in(path: Seq<char>) -> Seq<PieceModel> {
    let names = text::split_pieces(path, '/', 0);
    pieces_of_names(names, names.len() as int)
}

/// Components of a path whose names stand between slashes.
pub fn path_pieces(path: &str) -> (pieces: Vec<PathPiece>)
    ensures
        piece_models(pieces@) == pieces_in(path@),
{
    let chars = chars_of(path);
    let names = split_char(&chars, '/');
    let ghost texts = text::split_pieces(path@, '/', 0);
    let mut pieces: Vec<PathPiece> = Vec::new();
    let n: usize = names.len();
    let mut i: usize = 0;
    while i < n
        invariant
            i <= n == names@.len(),
            texts == text::piece_texts(names@),
            piece_models(pieces@) == pieces_of_names(texts, i as int),
        decreases n - i,
    {
        let name: &[char] = names[i];
        let ghost before = pieces@;
        proof {
            assert(texts[i as int] == name@);
        }
        if name.len() == 0 {
            if i == 0 && n > 1 {
                pieces.push(PathPiece::RootDir);
            }
        } else if is_text(name, ".") {
            if i == 0 {
                pieces.push(PathPiece::CurDir);
            }
        } else if is_text(name, "..") {
            pieces.push(PathPiece::ParentDir);
        } else {
            pieces.push(PathPiece::Normal(string_of(name)));
        }
        i += 1;
        proof {
            if pieces@.len() > before.len() {
                assert(piece_models(pieces@) =~= piece_models(before).push(pieces@.last()@));
            }
        }
    }
    pieces
}

/// `s` with every backslash replaced by a slash.
pub open spec fn slashed(s: Seq<char>) -> Seq<char> {
    s.map_values(
        |c: char|
            if c == '\\' {
                '/'
            } else {
                c
            },
    )
}

/// `out` with a slash after it where another component follows.
pub open spec fn separated(out: Seq<char>) -> Seq<char> {
    if out.len() > 0 && out.last() != '/' {
        out.push('/')
    } else {
        out
    }
}

/// `out` extended by one path component, in plain text.
pub open spec fn with_piece(out: Seq<char>, piece: PieceModel) -> Seq<char> {
    match piece {
        PieceModel::Prefix(prefix) => out + slashed(prefix),
        PieceModel::RootDir => out.push('/'),
        PieceModel::CurDir => separated(out) + "."@,
        PieceModel::ParentDir => separated(out) + ".."@,
        PieceModel::Normal(name) => separated(out) + name,
    }
}

/// Plain text of the first `n` components, joined by slashes.
pub open spec fn path_text(pieces: Seq<PieceModel>, n: int) -> Seq<char>
    decreases n,
{
    if n <= 0 || n > pieces.len() {
        Seq::empty()
    } else {
        with_piece(path_text(pieces, n - 1), pieces[n - 1])
    }
}

fn push_escaped(out: &mut Vec<char>, piece: &[char])
    ensures
        final(out)@ == old(out)@ + escaped(piece@),
{
    let mut i: usize = 0;
    while i < piece.len()
        invariant
            i <= piece@.len(),
            out@ == old(out)@ + escaped(piece@.subrange(0, i as int)),
        decreases piece@.len() - i,
    {
        let c: char = piece[i];
        let ghost before = piece@.subrange(0, i as int);
        if c == '%' {
            push_text(out, "%25");
        } else if c == ';' {
            push_text(out, "%3B");
        } else {
            out.push(c);
        }
        i += 1;
        proof {
            let now = piece@.subrange(0, i as int);
            assert(now.drop_last() =~= before);
            assert(out@ =~= old(out)@ + escaped(now));
        }
    }
    assert(piece@.subrange(0, piece@.len() as int) =~= piece@);
}

fn to_slashes(s: &[char]) -> (out: Vec<char>)
    ensures
        out@ == slashed(s@),
{
    let mut out: Vec<char> = Vec::new();
    let mut i: usize = 0;
    while i < s.len()
        invariant
            i <= s@.len(),
            out@ == slashed(s@).subrange(0, i as int),
        decreases s@.len() - i,
    {
        out.push(
            if s[i] == '\\' {
                '/'
            } else {
                s[i]
            },
        );
        i += 1;
        assert(slashed(s@).subrange(0, i as int) =~= slashed(s@).subrange(0, i - 1).push(
            slashed(s@)[i - 1],
        ));
    }
    assert(slashed(s@).subrange(0, s@.len() as int) =~= slashed(s@));
    out
}

proof fn lemma_escaped_ends(s: Seq<char>)
    ensures
        escaped(s).len() == 0 <==> s.len() == 0,
        s.len() > 0 ==> (escaped(s).last() == '/' <==> s.last() == '/'),
{
    reveal_strlit("%25");
    reveal_strlit("%3B");
}

/// Render a canonical `file:` path using slash separators and delimiter-safe escapes.
pub fn render_method_file_path(pieces: &[PathPiece]) -> (text: String)
    ensures
        text@ == escaped(path_text(piece_models(pieces@), pieces@.len() as int)),
{
    let out = render_path(pieces);
    string_of(&out)
}

fn push_component(out: &mut Vec<char>, name: &[char], Ghost(done): Ghost<Seq<char>>)
    requires
        old(out)@ == escaped(done),
    ensures
        final(out)@ == escaped(separated(done) + name@),
{
    proof {
        lemma_escaped_ends(done);
    }
    if out.len() > 0 && out[out.len() - 1] != '/' {
        out.push('/');
        proof {
            lemma_escaped_concat(done, seq!['/']);
            assert(done.push('/') =~= done + seq!['/']);
            lemma_escaped_one('/');
        }
    }
    proof {
        lemma_escaped_concat(separated(done), name@);
    }
    push_escaped(out, name);
}

fn render_path(pieces: &[PathPiece]) -> (out: Vec<char>)
    ensures
        out@ == escaped(path_text(piece_models(pieces@), pieces@.len() as int)),
{
    let mut out: Vec<char> = Vec::new();
    let mut i: usize = 0;
    while i < pieces.len()
        invariant
            i <= pieces@.len(),
            out@ == escaped(path_text(piece_models(pieces@), i as int)),
        decreases pieces@.len() - i,
    {
        let ghost done = path_text(piece_models(pieces@), i as int);
        match &pieces[i] {
            PathPiece::Prefix(prefix) => {
                let chars = chars_of(prefix.as_str());
                let plain = to_slashes(&chars);
                push_escaped(&mut out, &plain);
                proof {
                    lemma_escaped_concat(done, slashed(prefix@));
                }
            },
            PathPiece::RootDir => {
                out.push('/');
                proof {
                    lemma_escaped_concat(done, seq!['/']);
                    assert(done.push('/') =~= done + seq!['/']);
                    lemma_escaped_one('/');
                }
            },
            PathPiece::CurDir => {
                let chars = chars_of(".");
                push_component(&mut out, &chars, Ghost(done));
            },
            PathPiece::ParentDir => {
                let chars = chars_of("..");
                push_component(&mut out, &chars, Ghost(done));
            },
            PathPiece::Normal(name) => {
                let chars = chars_of(name.as_str());
                push_component(&mut out, &chars, Ghost(done));
            },
        }
        i += 1;
        assert(out@ =~= escaped(path_text(piece_models(pieces@), i as int)));
    }
    out
}

/// Decode percent-encoded delimiter characters inside a method `file:` path.
pub fn parse_method_file_path(path: &str) -> (text: String)
    ensures
        text@ == unescaped(path@, 0),
{
    let s = chars_of(path);
    let n: usize = s.len();
    let mut out: Vec<char> = Vec::new();
    let mut i: usize = 0;
    while i < n
        invariant
            i <= n,
            n == s@.len(),
            s@ == path@,
            unescaped(path@, 0) == out@ + unescaped(path@, i as int),
        decreases n - i,
    {
        let ghost before = out@;
        if s[i] == '%' && n - i > 2 {
            if s[i + 1] == '2' && s[i + 2] == '5' {
                out.push('%');
                assert(before + (seq!['%'] + unescaped(path@, i + 3)) =~= out@ + unescaped(
                    path@,
                    i + 3,
                ));
                i += 3;
                continue;
            }
            if s[i + 1] == '3' && (s[i + 2] == 'B' || s[i + 2] == 'b') {
                out.push(';');
                assert(before + (seq![';'] + unescaped(path@, i + 3)) =~= out@ + unescaped(
                    path@,
                    i + 3,
                ));
                i += 3;
                continue;
            }
        }
        out.push(s[i]);
        assert(before + (seq![s@[i as int]] + unescaped(path@, i + 1)) =~= out@ + unescaped(
            path@,
            i + 1,
        ));
        i += 1;
    }
    assert(out@ =~= unescaped(path@, 0));
    string_of(&out)
}

/// Reading back a rendered path gives the plain text of its components.
pub proof fn law_file_path_round_trip(pieces: Seq<PieceModel>)
    ensures
        unescaped(escaped(path_text(pieces, pieces.len() as int)), 0) == path_text(
            pieces,
            pieces.len() as int,
        ),
{
    law_unescaped_escaped(path_text(pieces, pieces.len() as int));
}

/// Render a `file:<path>[;policy:...]` method string using the shared delimiter-safe encoding.
pub fn canonical_file_method_string(pieces: &[PathPiece], policy: Option<&LlmPolicy>) -> (text:
    String)
    ensures
        text@ == "file:"@ + escaped(path_text(piece_models(pieces@), pieces@.len() as int)) + (match policy {
            Some(p) => ";policy:"@ + llm_policy::policy_text(p@),
            None => Seq::empty(),
        }),
{
    let mut out: Vec<char> = Vec::new();
    push_text(&mut out, "file:");
    let path = render_path(pieces);
    push_chars(&mut out, &path);
    match policy {
        Some(p) => {
            push_text(&mut out, ";policy:");
            let body = p.canonical();
            push_text(&mut out, body.as_str());
        },
        None => {},
    }
    assert(out@ =~= "file:"@ + escaped(path_text(piece_models(pieces@), pieces@.len() as int)) + (match policy {
        Some(p) => ";policy:"@ + llm_policy::policy_text(p@),
        None => Seq::empty(),
    }));
    string_of(&out)
}

/// Whether `c` may begin a segment token.
pub open spec fn token_start(c: char) -> bool {
    ('a' <= c && c <= 'z') || ('A' <= c && c <= 'Z') || c == '_'
}

/// Whether `c` may stand in a segment token.
pub open spec fn token_part(c: char) -> bool {
    token_start(c) || ('0' <= c && c <= '9') || c == '-'
}

/// Index of the first character at or after `from` that cannot stand in a token.
pub open spec fn token_end(s: Seq<char>, from: int) -> int
    decreases s.len() - from,
{
    if 0 <= from < s.len() && token_part(s[from]) {
        token_end(s, from + 1)
    } else {
        from
    }
}

/// Whether a semicolon at `i` is followed by a token and a colon.
pub open spec fn segment_at(s: Seq<char>, i: int) -> bool {
    &&& 0 <= i
    &&& i + 1 < s.len()
    &&& s[i] == ';'
    &&& token_start(s[i + 1])
    &&& token_end(s, i + 2) < s.len()
    &&& s[token_end(s, i + 2)] == ':'
}

/// Token of the first segment-like part of `s` at or after `from`.
pub open spec fn ambiguous_token(s: Seq<char>, from: int) -> Option<Seq<char>>
    decreases s.len() - from,
{
    if from < 0 || from >= s.len() {
        None
    } else if segment_at(s, from) {
        Some(s.subrange(from + 1, token_end(s, from + 2)))
    } else {
        ambiguous_token(s, from + 1)
    }
}

fn is_token_start(c: char) -> (yes: bool)
    ensures
        yes == token_start(c),
{
    ('a' <= c && c <= 'z') || ('A' <= c && c <= 'Z') || c == '_'
}

fn ambiguous_file_segment_token<'a>(path: &'a [char]) -> (token: Option<&'a [char]>)
    ensures
        match token {
            Some(t) => ambiguous_token(path@, 0) == Some(t@),
            None => ambiguous_token(path@, 0) is None,
        },
{
    let n: usize = path.len();
    let mut i: usize = 0;
    while i < n
        invariant
            i <= n == path@.len(),
            ambiguous_token(path@, 0) == ambiguous_token(path@, i as int),
        decreases n - i,
    {
        if path[i] == ';' && n - i > 1 && is_token_start(path[i + 1]) {
            let mut j: usize = i + 2;
            while j < n && (is_token_start(path[j]) || ('0' <= path[j] && path[j] <= '9') || path[j]
                == '-')
                invariant
                    i + 2 <= j <= n == path@.len(),
                    token_end(path@, i + 2) == token_end(path@, j as int),
                decreases n - j,
            {
                j += 1;
            }
            if j < n && path[j] == ':' {
                return Some(slice_subrange(path, i + 1, j));
            }
        }
        i += 1;
    }
    None
}

/// Policy text found in the pieces from index `i` on.
pub open spec fn policy_pieces(pieces: Seq<Seq<char>>, i: int, found: Option<Seq<char>>) -> Result<
    Option<Seq<char>>,
    ErrorModel,
>
    decreases pieces.len() - i,
{
    if i < 0 || i >= pieces.len() {
        Ok(found)
    } else {
        let s = text::trimmed(pieces[i]);
        if s.len() == 0 {
            policy_pieces(pieces, i + 1, found)
        } else {
            match text::after_prefix(s, "policy:"@) {
                Some(rest) => if found is Some {
                    Err(policy_error::plain(PolicyErrorKind::DuplicatePolicy))
                } else {
                    policy_pieces(pieces, i + 1, Some(text::trimmed(rest)))
                },
                None => Err(policy_error::bad(PolicyErrorKind::UnknownMethodSegment, s)),
            }
        }
    }
}

/// Base method and optional policy text of a method string that is no `file:` method.
pub open spec fn plain_method_split(s: Seq<char>) -> Result<
    (Seq<char>, Option<Seq<char>>),
    ErrorModel,
> {
    let pieces = text::split_pieces(s, ';', 0);
    let base = text::trimmed(pieces[0]);
    if base.len() == 0 {
        Err(policy_error::plain(PolicyErrorKind::MissingBase))
    } else {
        match policy_pieces(pieces, 1, None) {
            Ok(policy) => Ok((base, policy)),
            Err(error) => Err(error),
        }
    }
}

/// The split of a `file:` method at its first `;policy:`.
pub open spec fn file_policy_cut(s: Seq<char>) -> Option<(Seq<char>, Seq<char>)> {
    match text::cut_text(s, ";policy:"@) {
        Some((base, policy)) => if text::begins(text::trimmed_start(base), "file:"@) {
            Some((base, policy))
        } else {
            None
        },
        None => None,
    }
}

/// Base method and optional policy text of a method string.
pub open spec fn method_split(method: Seq<char>) -> Result<
    (Seq<char>, Option<Seq<char>>),
    ErrorModel,
> {
    let s = text::trimmed(method);
    if s.len() == 0 {
        Err(policy_error::plain(PolicyErrorKind::EmptyMethod))
    } else {
        match file_policy_cut(s) {
            Some((base, policy)) => if text::trimmed(base).len() == 0 {
                Err(policy_error::plain(PolicyErrorKind::MissingBase))
            } else {
                Ok((text::trimmed(base), Some(text::trimmed(policy))))
            },
            None => match text::after_prefix(s, "file:"@) {
                Some(path) => match ambiguous_token(path, 0) {
                    Some(token) => Err(policy_error::bad(PolicyErrorKind::AmbiguousFileSegment, token)),
                    None => Ok((s, None)),
                },
                None => plain_method_split(s),
            },
        }
    }
}

/// Whether a split result is what the model says.
pub open spec fn split_agrees(
    split: Result<(String, Option<String>), PolicyError>,
    model: Result<(Seq<char>, Option<Seq<char>>), ErrorModel>,
) -> bool {
    match split {
        Ok((base, policy)) => model == Ok::<(Seq<char>, Option<Seq<char>>), ErrorModel>(
            (
                base@,
                match policy {
                    Some(p) => Some(p@),
                    None => None,
                },
            ),
        ),
        Err(error) => model == Err::<(Seq<char>, Option<Seq<char>>), ErrorModel>(error@),
    }
}

/// Split `method` into base method segment and optional `policy:...` segment.
pub fn split_method_policy_segments(method: &str) -> (split: Result<
    (String, Option<String>),
    PolicyError,
>)
    ensures
        split_agrees(split, method_split(method@)),
{
    let chars = chars_of(method);
    let s = trim(&chars);
    if s.len() == 0 {
        return Err(refuse_plain(PolicyErrorKind::EmptyMethod));
    }
    match split_once_text(s, ";policy:") {
        Some((base, policy)) => {
            if strip_prefix(trim_start(base), "file:").is_some() {
                let base = trim(base);
                if base.len() == 0 {
                    return Err(refuse_plain(PolicyErrorKind::MissingBase));
                }
                return Ok((string_of(base), Some(string_of(trim(policy)))));
            }
        },
        None => {},
    }
    match strip_prefix(s, "file:") {
        Some(path) => {
            match ambiguous_file_segment_token(path) {
                Some(token) => Err(refuse(PolicyErrorKind::AmbiguousFileSegment, token)),
                None => Ok((string_of(s), None)),
            }
        },
        None => split_plain_method(s),
    }
}

proof fn lemma_split_pieces_step(s: Seq<char>, c: char, from: int)
    requires
        0 <= from <= s.len(),
    ensures
        ({
            let i = text::index_of_char(s, c, from);
            text::split_pieces(s, c, from) == if i < s.len() {
                seq![s.subrange(from, i)] + text::split_pieces(s, c, i + 1)
            } else {
                seq![s.subrange(from, s.len() as int)]
            }
        }),
{
    text::lemma_index_of_char_bounds(s, c, from);
}

fn split_plain_method(s: &[char]) -> (split: Result<(String, Option<String>), PolicyError>)
    ensures
        split_agrees(split, plain_method_split(s@)),
{
    let n: usize = s.len();
    let ghost pieces = text::split_pieces(s@, ';', 0);
    let mut end: usize = find_char(s, ';', 0);
    let first = slice_subrange(s, 0, end);
    proof {
        lemma_split_pieces_step(s@, ';', 0);
        assert(pieces[0] == first@);
    }
    let base = trim(first);
    if base.len() == 0 {
        return Err(refuse_plain(PolicyErrorKind::MissingBase));
    }
    let mut policy: Option<String> = None;
    let ghost mut count: int = 1;
    let ghost mut found: Option<Seq<char>> = None;
    assert(end == n ==> pieces.len() == 1);
    assert(end < n ==> pieces =~= pieces.subrange(0, 1) + text::split_pieces(s@, ';', end + 1));
    while end < n
        invariant
            end <= n == s@.len(),
            pieces == text::split_pieces(s@, ';', 0),
            1 <= count <= pieces.len(),
            base@ == text::trimmed(pieces[0]),
            base@.len() > 0,
            end < n ==> pieces == pieces.subrange(0, count) + text::split_pieces(s@, ';', end + 1),
            end == n ==> count == pieces.len(),
            found == (match policy {
                Some(p) => Some(p@),
                None => None,
            }),
            policy_pieces(pieces, 1, None) == policy_pieces(pieces, count, found),
        decreases n - end,
    {
        let start: usize = end + 1;
        end = find_char(s, ';', start);
        let piece = slice_subrange(s, start, end);
        proof {
            lemma_split_pieces_step(s@, ';', start as int);
            assert(text::split_pieces(s@, ';', start as int)[0] == piece@);
            assert(pieces[count] == piece@);
            if end < n {
                assert(pieces =~= pieces.subrange(0, count + 1) + text::split_pieces(
                    s@,
                    ';',
                    end + 1,
                ));
            }
        }
        let t = trim(piece);
        if t.len() != 0 {
            match strip_prefix(t, "policy:") {
                Some(rest) => {
                    if policy.is_some() {
                        return Err(refuse_plain(PolicyErrorKind::DuplicatePolicy));
                    }
                    let text = trim(rest);
                    policy = Some(string_of(text));
                    proof {
                        found = Some(text@);
                    }
                },
                None => {
                    return Err(refuse(PolicyErrorKind::UnknownMethodSegment, t));
                },
            }
        }
        proof {
            count = count + 1;
        }
    }
    Ok((string_of(base), policy))
}

} // verus!
