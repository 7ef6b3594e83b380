//! Expansion of local OpenQASM include files.
//!
//! The standard-library include (`stdgates.inc`) remains an include directive
//! because its gate signatures are built into semantic analysis. Any other
//! include directive is replaced by the text of the file it names, expanded in
//! turn and without its version header. Finding and reading files is left to
//! the caller: the expander says which file it needs next and is handed the
//! file's resolved path and text.

use vstd::prelude::*;

use crate::lexer::{lex, Token};
use crate::span::Spanned;
use crate::text::{at_char_start, char_start, decimal_text, lemma_char_start_zero, push_usize, str_eq, string_of, substring};
use vstd::string::StringSliceAdditionalSpecFns;
use vstd::utf8::encode_utf8;

verus! {

broadcast use vstd::seq::group_seq_axioms;

#[derive(Debug)]
pub enum IncludeError {
    /// A file could not be found or read.
    Io { path: String, message: String },
    /// A malformed include directive, at a byte offset of the file.
    InvalidDirective { path: String, offset: usize },
    /// The file is already being expanded.
    Cycle { path: String },
}

/// The error as a line of text.
pub open spec fn include_error_text(e: IncludeError) -> Seq<char> {
    match e {
        IncludeError::Io { path, message } => "failed to read include "@ + path@ + ": "@ + message@,
        IncludeError::InvalidDirective { path, offset } => "invalid include directive in "@ + path@
            + " at byte "@ + decimal_text(offset as nat),
        IncludeError::Cycle { path } => "include cycle detected at "@ + path@,
    }
}

impl IncludeError {
    /// The error as a line of text.
    pub fn describe(&self) -> (r: String)
        ensures
            r@ == include_error_text(*self),
    {
        match self {
            IncludeError::Io { path, message } => {
                let mut out = string_of("failed to read include ");
                out.append(path.as_str());
                out.append(": ");
                out.append(message.as_str());
                out
            },
            IncludeError::InvalidDirective { path, offset } => {
                let mut out = string_of("invalid include directive in ");
                out.append(path.as_str());
                out.append(" at byte ");
                push_usize(&mut out, *offset);
                out
            },
            IncludeError::Cycle { path } => {
                let mut out = string_of("include cycle detected at ");
                out.append(path.as_str());
                out
            },
        }
    }
}

// ── Directives ──────────────────────────────────────────────

/// What a scan for the next include directive found.
pub enum DirectiveScan {
    /// No include directive is left.
    End,
    /// The next directive is malformed; it starts at this byte offset.
    Invalid(usize),
    /// The next directive: its `include` token index, the bytes it covers and
    /// the path it names.
    Found { index: usize, start: usize, end: usize, path: String },
}

pub open spec fn is_include(t: Spanned<Token>) -> bool {
    t.node is Include
}

/// The directive at token `i` is `include "path";`.
pub open spec fn well_formed_at(toks: Seq<Spanned<Token>>, i: int) -> bool {
    &&& i + 2 < toks.len()
    &&& toks[i + 1].node is StringLiteral
    &&& toks[i + 2].node is Semicolon
}

/// The first `include` token at or after `from`, looking at the tokens from
/// `from` up to `upto`.
pub open spec fn no_include_between(toks: Seq<Spanned<Token>>, from: int, upto: int) -> bool {
    forall|j: int| from <= j < upto ==> !is_include(#[trigger] toks[j])
}

/// The next include directive of `toks` at or after token `from`.
pub fn next_directive(toks: &Vec<Spanned<Token>>, from: usize) -> (r: DirectiveScan)
    ensures
        r is End ==> no_include_between(toks@, from as int, toks@.len() as int),
        r matches DirectiveScan::Invalid(offset) ==> exists|i: int|
            #![trigger toks@[i]]
            from <= i < toks@.len() && is_include(toks@[i]) && no_include_between(toks@, from as int, i)
                && !well_formed_at(toks@, i) && offset == toks@[i].span.start,
        r matches DirectiveScan::Found { index, start, end, path } ==> {
            &&& from <= index
            &&& is_include(toks@[index as int])
            &&& no_include_between(toks@, from as int, index as int)
            &&& well_formed_at(toks@, index as int)
            &&& start == toks@[index as int].span.start
            &&& end == toks@[index + 2].span.end
            &&& toks@[index + 1].node == Token::StringLiteral(path)
        },
{
    let mut i: usize = from;
    if i >= toks.len() {
        return DirectiveScan::End;
    }
    while i < toks.len()
        invariant
            from <= i,
            no_include_between(toks@, from as int, i as int),
        decreases toks@.len() - i,
    {
        if let Token::Include = toks[i].node {
            assert(is_include(toks@[i as int]));
            if toks.len() - i <= 2 {
                assert(!well_formed_at(toks@, i as int));
                return DirectiveScan::Invalid(toks[i].span.start);
            }
            let path = match &toks[i + 1].node {
                Token::StringLiteral(p) => p.clone(),
                _ => {
                    assert(!well_formed_at(toks@, i as int));
                    return DirectiveScan::Invalid(toks[i].span.start);
                },
            };
            if let Token::Semicolon = toks[i + 2].node {
                return DirectiveScan::Found {
                    index: i,
                    start: toks[i].span.start,
                    end: toks[i + 2].span.end,
                    path,
                };
            }
            assert(!well_formed_at(toks@, i as int));
            return DirectiveScan::Invalid(toks[i].span.start);
        }
        i += 1;
    }
    DirectiveScan::End
}

/// The end of the first `;` token at or after token `k`.
pub open spec fn first_semicolon_end(toks: Seq<Spanned<Token>>, k: int) -> Option<int>
    decreases toks.len() - k,
{
    if k < 0 || k >= toks.len() {
        None
    } else if toks[k].node is Semicolon {
        Some(toks[k].span.end as int)
    } else {
        first_semicolon_end(toks, k + 1)
    }
}

/// Where a leading version header ends: the end of the first `;` when the
/// first token is `OPENQASM`.
pub open spec fn header_cut(toks: Seq<Spanned<Token>>) -> Option<int> {
    if toks.len() > 0 && toks[0].node is OpenQasm {
        first_semicolon_end(toks, 0)
    } else {
        None
    }
}

/// The string literal names the standard-library include.
pub open spec fn names_std(t: Token) -> bool {
    t matches Token::StringLiteral(p) && p@ == "stdgates.inc"@
}

/// The path written in the directive at token `i`.
pub open spec fn directive_path(toks: Seq<Spanned<Token>>, i: int) -> Seq<char> {
    match toks[i + 1].node {
        Token::StringLiteral(p) => p@,
        _ => seq![],
    }
}

/// The first include directive at or after token `k` that is malformed or
/// names a file other than `stdgates.inc`.
pub open spec fn first_local(toks: Seq<Spanned<Token>>, k: int) -> Option<int>
    decreases toks.len() - k,
{
    if k < 0 || k >= toks.len() {
        None
    } else if is_include(toks[k]) {
        if well_formed_at(toks, k) && names_std(toks[k + 1].node) {
            first_local(toks, k + 3)
        } else {
            Some(k)
        }
    } else {
        first_local(toks, k + 1)
    }
}

proof fn lemma_first_local_skip(toks: Seq<Spanned<Token>>, from: int, to: int)
    requires
        0 <= from <= to,
        no_include_between(toks, from, to),
    ensures
        first_local(toks, from) == first_local(toks, to),
    decreases to - from,
{
    if from < to && from < toks.len() {
        lemma_first_local_skip(toks, from + 1, to);
    }
    if from < to && from >= toks.len() {
        assert(first_local(toks, from) is None);
        assert(first_local(toks, to) is None);
    }
}

/// What reading the text of a newly opened file at `path` leads to, by its
/// tokens `toks` and lexing errors `errs`: a lexing error fails at its offset;
/// otherwise its first local directive decides: a malformed one fails at
/// its offset, a well-formed one asks to load the file it names (when its
/// bytes lie on character boundaries); with none, the outermost file is
/// done and keeps its text.
pub open spec fn read_start(
    outermost: bool,
    path: Seq<char>,
    text: Seq<char>,
    toks: Seq<Spanned<Token>>,
    errs: Seq<crate::span::Span>,
    r: IncludeStep,
) -> bool {
    let bytes = encode_utf8(text);
    if errs.len() > 0 {
        r matches IncludeStep::Failed(IncludeError::InvalidDirective { path: p, offset }) && p@ == path && offset
            == errs[0].start
    } else {
        match first_local(toks, 0) {
            None => outermost ==> (r matches IncludeStep::Done(s) && s@ == text),
            Some(i) => {
                let start = toks[i].span.start;
                if well_formed_at(toks, i) && start <= toks[i + 2].span.end && at_char_start(bytes, start as int)
                    && at_char_start(bytes, toks[i + 2].span.end as int) {
                    r matches IncludeStep::Load { from, target } && from@ == path && target@ == directive_path(toks, i)
                } else {
                    r matches IncludeStep::Failed(IncludeError::InvalidDirective { path: p, offset }) && p@ == path
                        && offset == start
                }
            },
        }
    }
}

/// The byte offset just after a leading `OPENQASM ...;` header: the end of
/// the first `;` when the first token is `OPENQASM`.
pub fn header_end(toks: &Vec<Spanned<Token>>) -> (r: Option<usize>)
    ensures
        r matches Some(x) ==> header_cut(toks@) == Some(x as int),
        r is None ==> header_cut(toks@) is None,
        r matches Some(e) ==> {
            &&& toks@.len() > 0
            &&& toks@[0].node is OpenQasm
            &&& exists|k: int|
                0 <= k < toks@.len() && (#[trigger] toks@[k]).node is Semicolon && e == toks@[k].span.end
                    && forall|j: int| 0 <= j < k ==> !((#[trigger] toks@[j]).node is Semicolon)
        },
        r is None ==> toks@.len() == 0 || !(toks@[0].node is OpenQasm) || forall|j: int|
            0 <= j < toks@.len() ==> !((#[trigger] toks@[j]).node is Semicolon),
{
    if toks.len() == 0 {
        return None;
    }
    if let Token::OpenQasm = toks[0].node {
        let mut k: usize = 0;
        while k < toks.len()
            invariant
                k <= toks@.len(),
                toks@.len() > 0,
                toks@[0].node is OpenQasm,
                forall|j: int| 0 <= j < k ==> !((#[trigger] toks@[j]).node is Semicolon),
                first_semicolon_end(toks@, 0) == first_semicolon_end(toks@, k as int),
            decreases toks@.len() - k,
        {
            if let Token::Semicolon = toks[k].node {
                return Some(toks[k].span.end);
            }
            k += 1;
        }
        None
    } else {
        None
    }
}

/// `source` without a leading version header, the rest as it stands: the
/// bytes after the first `;` when the first token is `OPENQASM` (and that
/// `;` ends on a character boundary), else the whole source.
pub fn strip_version_header(source: &str) -> (r: String)
    ensures
        exists|e: int|
            0 <= e <= source.spec_bytes().len() && encode_utf8(r@) == source.spec_bytes().subrange(
                e,
                source.spec_bytes().len() as int,
            ),
        exists|toks: Seq<Spanned<Token>>, errs: Seq<crate::span::Span>|
            #[trigger] crate::lexer::lexed(source.spec_bytes(), toks, errs) && match header_cut(toks) {
                Some(e) => if at_char_start(source.spec_bytes(), e) {
                    encode_utf8(r@) == source.spec_bytes().subrange(e, source.spec_bytes().len() as int)
                } else {
                    r@ == source@
                },
                None => r@ == source@,
            },
{
    let (tokens, errs) = lex(source);
    assert(crate::lexer::lexed(source.spec_bytes(), tokens@, errs@));
    let n = source.as_bytes().len();
    if let Some(end) = header_end(&tokens) {
        if char_start(source, end) {
            return substring(source, end, n);
        }
    }
    proof {
        assert(source.spec_bytes().subrange(0, n as int) =~= source.spec_bytes());
    }
    let r = string_of(source);
    assert(encode_utf8(r@) == source.spec_bytes().subrange(0, n as int));
    r
}

// ── Splicing ────────────────────────────────────────────────

/// A byte range of a file and the text that replaces it.
pub struct Piece {
    pub start: usize,
    pub end: usize,
    pub text: String,
}

/// The pieces lie in order inside `bytes`, from `pos` on, each starting
/// and ending at a character start.
pub open spec fn pieces_ok(bytes: Seq<u8>, pieces: Seq<Piece>, pos: int) -> bool
    decreases pieces.len(),
{
    if pieces.len() == 0 {
        at_char_start(bytes, pos)
    } else {
        &&& at_char_start(bytes, pos)
        &&& pos <= pieces[0].start <= pieces[0].end
        &&& at_char_start(bytes, pieces[0].start as int)
        &&& pieces_ok(bytes, pieces.drop_first(), pieces[0].end as int)
    }
}

/// `bytes` from `pos` on, with each piece's range replaced by its text.
pub open spec fn spliced(bytes: Seq<u8>, pieces: Seq<Piece>, pos: int) -> Seq<u8>
    decreases pieces.len(),
{
    if pieces.len() == 0 {
        bytes.subrange(pos, bytes.len() as int)
    } else {
        bytes.subrange(pos, pieces[0].start as int) + encode_utf8(pieces[0].text@) + spliced(
            bytes,
            pieces.drop_first(),
            pieces[0].end as int,
        )
    }
}

proof fn lemma_encode_concat(a: Seq<char>, b: Seq<char>)
    ensures
        encode_utf8(a + b) == encode_utf8(a) + encode_utf8(b),
    decreases a.len(),
{
    if a.len() == 0 {
        assert(a + b =~= b);
        assert(encode_utf8(a) =~= Seq::<u8>::empty());
    } else {
        assert((a + b).drop_first() =~= a.drop_first() + b);
        assert((a + b)[0] == a[0]);
        lemma_encode_concat(a.drop_first(), b);
    }
}

/// The source with each piece's byte range replaced by the piece's text.
pub fn splice(source: &str, pieces: &Vec<Piece>) -> (r: String)
    requires
        pieces_ok(source.spec_bytes(), pieces@, 0),
    ensures
        encode_utf8(r@) == spliced(source.spec_bytes(), pieces@, 0),
{
    let ghost bytes = source.spec_bytes();
    let n = source.as_bytes().len();
    let mut out = String::new();
    let mut pos: usize = 0;
    let mut k: usize = 0;
    proof {
        assert(pieces@.skip(0) =~= pieces@);
        assert(out@ =~= Seq::<char>::empty());
        assert(encode_utf8(out@) =~= Seq::<u8>::empty());
    }
    while k < pieces.len()
        invariant
            n == bytes.len(),
            bytes == source.spec_bytes(),
            k <= pieces@.len(),
            pieces_ok(bytes, pieces@.skip(k as int), pos as int),
            encode_utf8(out@) + spliced(bytes, pieces@.skip(k as int), pos as int) == spliced(bytes, pieces@, 0),
        decreases pieces@.len() - k,
    {
        let ghost rest = pieces@.skip(k as int);
        assert(rest[0] == pieces@[k as int]);
        assert(rest.drop_first() =~= pieces@.skip(k + 1));
        let p = &pieces[k];
        assert(p.end <= n) by {
            lemma_pieces_bounded(bytes, rest, pos as int);
        }
        let head = substring(source, pos, p.start);
        let ghost before = out@;
        out.append(head.as_str());
        out.append(p.text.as_str());
        proof {
            lemma_encode_concat(before, head@);
            lemma_encode_concat(before + head@, p.text@);
            assert(out@ == before + head@ + p.text@);
        }
        pos = p.end;
        k += 1;
    }
    proof {
        assert(pieces@.skip(k as int) =~= Seq::<Piece>::empty());
    }
    let tail = substring(source, pos, n);
    let ghost before = out@;
    out.append(tail.as_str());
    proof {
        lemma_encode_concat(before, tail@);
    }
    out
}

proof fn lemma_pieces_bounded(bytes: Seq<u8>, pieces: Seq<Piece>, pos: int)
    requires
        pieces_ok(bytes, pieces, pos),
        pieces.len() > 0,
    ensures
        pieces[0].end <= bytes.len(),
        at_char_start(bytes, pieces[0].end as int),
{
    assert(pieces_ok(bytes, pieces.drop_first(), pieces[0].end as int));
}

/// Where the pieces end: the end of the last one, or `pos` when there is none.
pub open spec fn pieces_end(pieces: Seq<Piece>, pos: int) -> int {
    if pieces.len() == 0 {
        pos
    } else {
        pieces.last().end as int
    }
}

proof fn lemma_pieces_push(bytes: Seq<u8>, pieces: Seq<Piece>, pos: int, p: Piece)
    requires
        pieces_ok(bytes, pieces, pos),
        pieces_end(pieces, pos) <= p.start <= p.end,
        at_char_start(bytes, p.start as int),
        at_char_start(bytes, p.end as int),
    ensures
        pieces_ok(bytes, pieces.push(p), pos),
    decreases pieces.len(),
{
    let q = pieces.push(p);
    if pieces.len() == 0 {
        assert(q.drop_first() =~= Seq::<Piece>::empty());
        assert(q[0] == p);
        assert(pieces_ok(bytes, q.drop_first(), p.end as int));
    } else {
        assert(q.drop_first() =~= pieces.drop_first().push(p));
        assert(q[0] == pieces[0]);
        if pieces.len() > 1 {
            assert(pieces.drop_first().last() == pieces.last());
        } else {
            assert(pieces.last() == pieces[0]);
        }
        lemma_pieces_push(bytes, pieces.drop_first(), pieces[0].end as int, p);
        assert(pieces_ok(bytes, q.drop_first(), q[0].end as int));
    }
}

// ── The expander ────────────────────────────────────────────

/// A file being expanded.
struct Frame {
    /// The resolved path of the file.
    path: String,
    source: String,
    /// Whether the version header stays (only for the outermost file).
    keep_header: bool,
    tokens: Vec<Spanned<Token>>,
    /// The token to scan from.
    next: usize,
    /// Directives replaced so far.
    pieces: Vec<Piece>,
    /// The directive waiting for the expansion of the file it names: its
    /// byte range and the path as written.
    pending: Option<(usize, usize, String)>,
}

spec fn frame_ok(f: Frame) -> bool {
    &&& pieces_ok(encode_utf8(f.source@), f.pieces@, 0)
    &&& f.next <= f.tokens@.len()
    &&& f.pending matches Some((s, e, _)) ==> {
        &&& pieces_end(f.pieces@, 0) <= s <= e
        &&& at_char_start(encode_utf8(f.source@), s as int)
        &&& at_char_start(encode_utf8(f.source@), e as int)
    }
}

spec fn frame_paths(frames: Seq<Frame>) -> Seq<Seq<char>> {
    frames.map_values(|f: Frame| f.path@)
}

/// A file being expanded, as text: its resolved path and text, whether its
/// version header stays, its tokens, the token to scan from, the
/// directives replaced so far, and the directive waiting for its file.
pub struct FrameView {
    pub path: Seq<char>,
    pub text: Seq<char>,
    pub keep_header: bool,
    pub toks: Seq<Spanned<Token>>,
    pub next: int,
    pub pieces: Seq<Piece>,
    pub pending: Option<(usize, usize, Seq<char>)>,
}

spec fn frame_view(f: Frame) -> FrameView {
    FrameView {
        path: f.path@,
        text: f.source@,
        keep_header: f.keep_header,
        toks: f.tokens@,
        next: f.next as int,
        pieces: f.pieces@,
        pending: match f.pending {
            Some((s, e, t)) => Some((s, e, t@)),
            None => None,
        },
    }
}

spec fn frame_views(frames: Seq<Frame>) -> Seq<FrameView> {
    frames.map_values(|f: Frame| frame_view(f))
}

/// `t` is `u` without a leading version header (see `strip_version_header`).
pub open spec fn stripped(u: Seq<char>, t: Seq<char>) -> bool {
    exists|toks: Seq<Spanned<Token>>, errs: Seq<crate::span::Span>|
        #[trigger] crate::lexer::lexed(encode_utf8(u), toks, errs) && match header_cut(toks) {
            Some(e) => if at_char_start(encode_utf8(u), e) {
                encode_utf8(t) == encode_utf8(u).subrange(e, encode_utf8(u).len() as int)
            } else {
                t == u
            },
            None => t == u,
        }
}

/// `t` is the expansion of the file `f` once its directives are replaced:
/// its text with each piece spliced in, without its version header unless
/// it is the outermost file.
pub open spec fn frame_result(f: FrameView, t: Seq<char>) -> bool {
    exists|u: Seq<char>|
        #[trigger] encode_utf8(u) == spliced(encode_utf8(f.text), f.pieces, 0) && if f.keep_header {
            t == u
        } else {
            stripped(u, t)
        }
}

/// `p2` is the waiting file `p` with its pending directive replaced by
/// `// expanded <path>` and the expansion `t` of the file it names.
pub open spec fn piece_added(p2: FrameView, p: FrameView, t: Seq<char>) -> bool {
    &&& p.pending matches Some((s, e, target)) && {
        &&& p2.pieces.len() == p.pieces.len() + 1
        &&& p2.pieces.drop_last() == p.pieces
        &&& p2.pieces.last().start == s
        &&& p2.pieces.last().end == e
        &&& p2.pieces.last().text@ == "// expanded "@ + target + "\n"@ + t
    }
    &&& p2.pending is None
    &&& p2.path == p.path
    &&& p2.text == p.text
    &&& p2.keep_header == p.keep_header
    &&& p2.toks == p.toks
    &&& p2.next == p.next
}

/// The directive at token `i` of `f` can be replaced: it lies on character
/// boundaries after the pieces so far.
pub open spec fn directive_fits(f: FrameView, i: int) -> bool {
    let start = f.toks[i].span.start;
    let end = f.toks[i + 2].span.end;
    &&& well_formed_at(f.toks, i)
    &&& pieces_end(f.pieces, 0) <= start <= end
    &&& at_char_start(encode_utf8(f.text), start as int)
    &&& at_char_start(encode_utf8(f.text), end as int)
}

/// What the expander does from the file `cur`, with the files `frames`
/// waiting (outermost first): `cur`'s next local directive, if it fits,
/// asks for its file (and `cur` waits on it) and otherwise fails; with no
/// directive left, `cur`'s expansion completes the outermost file or is
/// spliced into the file waiting on it, which goes on.
pub open spec fn read_outcome(frames: Seq<FrameView>, cur: FrameView, r: IncludeStep, after: Seq<FrameView>) -> bool
    decreases frames.len(),
{
    match first_local(cur.toks, cur.next) {
        Some(i) => if directive_fits(cur, i) {
            &&& r matches IncludeStep::Load { from, target } && from@ == cur.path && target@ == directive_path(cur.toks, i)
            &&& after == frames.push(
                FrameView {
                    next: i + 3,
                    pending: Some((cur.toks[i].span.start, cur.toks[i + 2].span.end, directive_path(cur.toks, i))),
                    ..cur
                },
            )
        } else {
            &&& r matches IncludeStep::Failed(IncludeError::InvalidDirective { path: p, offset }) && p@ == cur.path
                && offset == cur.toks[i].span.start
            &&& after.len() == 0
        },
        None => if frames.len() == 0 {
            &&& r matches IncludeStep::Done(s) && frame_result(cur, s@)
            &&& after.len() == 0
        } else {
            exists|t: Seq<char>, p2: FrameView|
                frame_result(cur, t) && #[trigger] piece_added(p2, frames.last(), t) && read_outcome(
                    frames.drop_last(),
                    p2,
                    r,
                    after,
                )
        },
    }
}

proof fn lemma_outcome_next(frames: Seq<FrameView>, c1: FrameView, c2: FrameView, r: IncludeStep, after: Seq<FrameView>)
    requires
        c2 == (FrameView { next: c2.next, ..c1 }),
        first_local(c1.toks, c1.next) == first_local(c2.toks, c2.next),
        read_outcome(frames, c2, r, after),
    ensures
        read_outcome(frames, c1, r, after),
{
    if first_local(c1.toks, c1.next) is None && frames.len() > 0 {
        let (t, p2) = choose|t: Seq<char>, p2: FrameView|
            frame_result(c2, t) && #[trigger] piece_added(p2, frames.last(), t) && read_outcome(
                frames.drop_last(),
                p2,
                r,
                after,
            );
        assert(frame_result(c1, t));
        assert(piece_added(p2, frames.last(), t));
    }
}

/// What the expander needs next.
pub enum IncludeStep {
    /// Resolve `target`, written in the file `from`, relative to the folder of
    /// `from`; then `open` and `read` it.
    Load { from: String, target: String },
    /// The expansion of the outermost file.
    Done(String),
    /// The expansion failed.
    Failed(IncludeError),
}

/// Expands include directives file by file; the caller resolves and reads
/// the files it asks for.
pub struct IncludeExpander {
    /// Files whose expansion waits for an included file, outermost first.
    frames: Vec<Frame>,
    /// The file opened and not yet read.
    opened: Option<String>,
}

impl IncludeExpander {
    /// The resolved paths of the files being expanded, outermost first.
    pub closed spec fn paths(&self) -> Seq<Seq<char>> {
        frame_paths(self.frames@)
    }

    /// The files being expanded, outermost first.
    pub closed spec fn frames(&self) -> Seq<FrameView> {
        frame_views(self.frames@)
    }

    /// The file opened and not yet read.
    pub closed spec fn opened_path(&self) -> Option<Seq<char>> {
        match self.opened {
            Some(p) => Some(p@),
            None => None,
        }
    }

    /// No file is being expanded twice; every file being expanded waits for
    /// a directive's file; an opened file is not one of them.
    pub closed spec fn wf(&self) -> bool {
        &&& self.paths().no_duplicates()
        &&& forall|i: int| 0 <= i < self.frames@.len() ==> frame_ok(#[trigger] self.frames@[i])
        &&& forall|i: int| 0 <= i < self.frames@.len() ==> (#[trigger] self.frames@[i]).pending is Some
        &&& self.opened_path() matches Some(p) ==> !self.paths().contains(p)
    }

    /// No file is ever being expanded twice at once, so an include cycle
    /// cannot loop.
    pub proof fn lemma_paths_distinct(&self)
        requires
            self.wf(),
        ensures
            self.paths().no_duplicates(),
    {
    }

    pub fn new() -> (r: Self)
        ensures
            r.wf(),
            r.paths() == Seq::<Seq<char>>::empty(),
            r.opened_path() is None,
            r.frames() == Seq::<FrameView>::empty(),
    {
        let r = IncludeExpander { frames: Vec::new(), opened: None };
        assert(r.paths() =~= Seq::<Seq<char>>::empty());
        assert(r.frames() =~= Seq::<FrameView>::empty());
        r
    }

    /// The file at the resolved `path` is about to be read. Refused, as an
    /// include cycle, exactly when that file is being expanded already.
    pub fn open(&mut self, path: String) -> (r: Result<(), IncludeError>)
        requires
            old(self).wf(),
        ensures
            final(self).wf(),
            final(self).paths() == old(self).paths(),
            final(self).frames() == old(self).frames(),
            r is Err <==> old(self).paths().contains(path@),
            r matches Err(e) ==> (e matches IncludeError::Cycle { path: p } && p@ == path@),
            r is Ok ==> final(self).opened_path() == Some(path@),
            r is Err ==> final(self).opened_path() == old(self).opened_path(),
    {
        let mut i: usize = 0;
        while i < self.frames.len()
            invariant
                i <= self.frames@.len(),
                *self == *old(self),
                old(self).wf(),
                forall|j: int| 0 <= j < i ==> frame_paths(self.frames@)[j] != path@,
            decreases self.frames@.len() - i,
        {
            if str_eq(self.frames[i].path.as_str(), path.as_str()) {
                assert(frame_paths(self.frames@)[i as int] == path@);
                return Err(IncludeError::Cycle { path });
            }
            i += 1;
        }
        assert(!self.paths().contains(path@));
        self.opened = Some(path);
        Ok(())
    }

    /// Give up: nothing is being expanded afterwards.
    fn abandon(&mut self)
        ensures
            final(self).wf(),
            final(self).paths() == Seq::<Seq<char>>::empty(),
            final(self).opened_path() is None,
    {
        self.frames = Vec::new();
        self.opened = None;
        assert(self.paths() =~= Seq::<Seq<char>>::empty());
    }

    /// The text of the file last opened; says what is needed next. A
    /// lexing error fails at its offset; otherwise the expander goes on as
    /// `read_outcome` says: the first directive left that names a file other
    /// than `stdgates.inc` asks for that file, or fails when malformed; a
    /// file with none left is spliced, as `// expanded <path>` and its text
    /// without version header, into the file that waits on it, which goes
    /// on; the outermost one completes the expansion.
    pub fn read(&mut self, text: String) -> (r: IncludeStep)
        requires
            old(self).wf(),
            old(self).opened_path() is Some,
        ensures
            final(self).wf(),
            final(self).opened_path() is None,
            final(self).paths().len() <= old(self).paths().len() + 1,
            final(self).paths() == old(self).paths().push(old(self).opened_path().unwrap()).take(
                final(self).paths().len() as int,
            ),
            r matches IncludeStep::Load { from, .. } ==> final(self).paths().len() > 0 && from@
                == final(self).paths().last(),
            !(r is Load) ==> final(self).paths().len() == 0,
            exists|toks: Seq<Spanned<Token>>, errs: Seq<crate::span::Span>|
                #[trigger] crate::lexer::lexed(encode_utf8(text@), toks, errs) && read_start(
                    old(self).paths().len() == 0,
                    old(self).opened_path().unwrap(),
                    text@,
                    toks,
                    errs,
                    r,
                ) && (errs.len() == 0 ==> read_outcome(
                    old(self).frames(),
                    FrameView {
                        path: old(self).opened_path().unwrap(),
                        text: text@,
                        keep_header: old(self).paths().len() == 0,
                        toks,
                        next: 0,
                        pieces: seq![],
                        pending: None,
                    },
                    r,
                    final(self).frames(),
                )),
    {
        let ghost full = self.paths().push(self.opened_path().unwrap());
        let path = match self.opened.take() {
            Some(p) => p,
            None => {
                self.abandon();
                return IncludeStep::Done(String::new());
            },
        };
        let keep_header = self.frames.len() == 0;
        let ghost opened = path@;
        let ghost text0 = text@;
        let ghost outermost = keep_header;
        let (tokens, errors) = lex(text.as_str());
        let ghost toks0 = tokens@;
        let ghost errs0 = errors@;
        assert(crate::lexer::lexed(encode_utf8(text0), toks0, errs0));
        if errors.len() > 0 {
            let offset = errors[0].start;
            self.abandon();
            let r = IncludeStep::Failed(IncludeError::InvalidDirective { path, offset });
            assert(read_start(outermost, opened, text0, toks0, errs0, r));
            return r;
        }
        let ghost nframes0 = self.frames@.len();
        let ghost mut fresh = true;
        let pieces: Vec<Piece> = Vec::new();
        proof {
            lemma_char_start_zero(text@);
        }
        let mut cur = Frame { path, source: text, keep_header, tokens, next: 0, pieces, pending: None };
        let ghost frames0v = frame_views(self.frames@);
        let ghost start_view = frame_view(cur);
        proof {
            assert(frame_paths(self.frames@).push(cur.path@) =~= full);
            assert(cur.pieces@ =~= Seq::<Piece>::empty());
            assert(start_view == FrameView {
                path: opened,
                text: text0,
                keep_header: outermost,
                toks: toks0,
                next: 0,
                pieces: seq![],
                pending: None,
            });
            assert(frames0v == old(self).frames());
        }
        loop
            invariant
                self.opened is None,
                frame_ok(cur),
                cur.pending is None,
                forall|i: int| 0 <= i < self.frames@.len() ==> frame_ok(#[trigger] self.frames@[i]),
                forall|i: int| 0 <= i < self.frames@.len() ==> (#[trigger] self.frames@[i]).pending is Some,
                frame_paths(self.frames@).push(cur.path@).no_duplicates(),
                frame_paths(self.frames@).push(cur.path@) == full.take(self.frames@.len() + 1int),
                self.frames@.len() + 1 <= full.len(),
                full == old(self).paths().push(old(self).opened_path().unwrap()),
                crate::lexer::lexed(encode_utf8(text0), toks0, errs0),
                text0 == text@,
                errs0.len() == 0,
                opened == old(self).opened_path().unwrap(),
                outermost == (old(self).paths().len() == 0),
                fresh ==> {
                    &&& cur.tokens@ == toks0
                    &&& cur.path@ == opened
                    &&& cur.source@ == text0
                    &&& cur.pieces@.len() == 0
                    &&& cur.keep_header == outermost
                    &&& self.frames@.len() == nframes0
                    &&& nframes0 == old(self).paths().len()
                    &&& first_local(toks0, 0) == first_local(toks0, cur.next as int)
                },
                !fresh ==> first_local(toks0, 0) is None && !outermost,
                frames0v == old(self).frames(),
                start_view == (FrameView {
                    path: opened,
                    text: text0,
                    keep_header: outermost,
                    toks: toks0,
                    next: 0,
                    pieces: seq![],
                    pending: None,
                }),
                forall|rr: IncludeStep, g: Seq<FrameView>|
                    #[trigger] read_outcome(frame_views(self.frames@), frame_view(cur), rr, g) ==> read_outcome(
                        frames0v,
                        start_view,
                        rr,
                        g,
                    ),
            decreases self.frames@.len(), cur.tokens@.len() - cur.next,
        {
            let ghost fh = frame_views(self.frames@);
            let ghost ch = frame_view(cur);
            match next_directive(&cur.tokens, cur.next) {
                DirectiveScan::Invalid(offset) => {
                    proof {
                        if fresh {
                            let i = choose|i: int|
                                #![trigger cur.tokens@[i]]
                                cur.next <= i < cur.tokens@.len() && is_include(cur.tokens@[i]) && no_include_between(
                                    cur.tokens@,
                                    cur.next as int,
                                    i,
                                ) && !well_formed_at(cur.tokens@, i) && offset == cur.tokens@[i].span.start;
                            lemma_first_local_skip(toks0, cur.next as int, i);
                            assert(first_local(toks0, 0) == Some(i));
                        }
                    }
                    proof {
                        let i = choose|i: int|
                            #![trigger cur.tokens@[i]]
                            cur.next <= i < cur.tokens@.len() && is_include(cur.tokens@[i]) && no_include_between(
                                cur.tokens@,
                                cur.next as int,
                                i,
                            ) && !well_formed_at(cur.tokens@, i) && offset == cur.tokens@[i].span.start;
                        lemma_first_local_skip(cur.tokens@, cur.next as int, i);
                        assert(first_local(ch.toks, ch.next) == Some(i));
                    }
                    self.abandon();
                    let r = IncludeStep::Failed(IncludeError::InvalidDirective { path: cur.path, offset });
                    assert(read_start(outermost, opened, text0, toks0, errs0, r));
                    proof {
                        assert(self.frames() =~= Seq::<FrameView>::empty());
                        assert(read_outcome(fh, ch, r, self.frames()));
                        assert(read_outcome(frames0v, start_view, r, self.frames()));
                    }
                    return r;
                },
                DirectiveScan::Found { index, start, end, path } => {
                    assert(index + 2 < cur.tokens@.len());
                    assert(cur.tokens.len() == cur.tokens@.len());
                    proof {
                        if fresh {
                            lemma_first_local_skip(toks0, cur.next as int, index as int);
                        }
                        lemma_first_local_skip(cur.tokens@, cur.next as int, index as int);
                    }
                    cur.next = index + 3;
                    if str_eq(path.as_str(), "stdgates.inc") {
                        proof {
                            if fresh {
                                assert(names_std(toks0[index + 1].node));
                            }
                            assert(names_std(cur.tokens@[index + 1].node));
                            assert(first_local(ch.toks, ch.next) == first_local(cur.tokens@, cur.next as int));
                            assert forall|rr: IncludeStep, g: Seq<FrameView>|
                                #[trigger] read_outcome(frame_views(self.frames@), frame_view(cur), rr, g) implies read_outcome(
                                    frames0v,
                                    start_view,
                                    rr,
                                    g,
                                ) by {
                                lemma_outcome_next(fh, ch, frame_view(cur), rr, g);
                            }
                        }
                        continue;
                    }
                    proof {
                        assert(!names_std(cur.tokens@[index + 1].node));
                        assert(first_local(ch.toks, ch.next) == Some(index as int));
                    }
                    proof {
                        if fresh {
                            assert(!names_std(toks0[index + 1].node));
                            assert(first_local(toks0, 0) == Some(index as int));
                            assert(directive_path(toks0, index as int) == path@);
                        }
                    }
                    let last_end = if cur.pieces.len() == 0 {
                        0
                    } else {
                        cur.pieces[cur.pieces.len() - 1].end
                    };
                    if !(last_end <= start && start <= end && char_start(cur.source.as_str(), start)
                        && char_start(cur.source.as_str(), end)) {
                        self.abandon();
                        let r = IncludeStep::Failed(IncludeError::InvalidDirective { path: cur.path, offset: start });
                        assert(read_start(outermost, opened, text0, toks0, errs0, r));
                        proof {
                            assert(!directive_fits(ch, index as int));
                            assert(self.frames() =~= Seq::<FrameView>::empty());
                            assert(read_outcome(fh, ch, r, self.frames()));
                            assert(read_outcome(frames0v, start_view, r, self.frames()));
                        }
                        return r;
                    }
                    let from = cur.path.clone();
                    cur.pending = Some((start, end, path.clone()));
                    let ghost before = self.frames@;
                    assert(from@ == cur.path@);
                    self.frames.push(cur);
                    proof {
                        assert(frame_paths(before).push(from@) == full.take(before.len() + 1int));
                        assert(frame_paths(self.frames@) =~= frame_paths(before).push(from@));
                        assert forall|i: int| 0 <= i < self.frames@.len() implies frame_ok(#[trigger] self.frames@[i])
                            && self.frames@[i].pending is Some by {
                            if i < before.len() {
                                assert(self.frames@[i] == before[i]);
                            }
                        }
                        assert(self.paths().last() == from@);
                    }
                    let r = IncludeStep::Load { from, target: path };
                    assert(read_start(outermost, opened, text0, toks0, errs0, r));
                    proof {
                        assert(directive_fits(ch, index as int));
                        assert(frame_views(self.frames@) =~= fh.push(frame_view(self.frames@.last())));
                        assert(read_outcome(fh, ch, r, self.frames()));
                        assert(read_outcome(frames0v, start_view, r, self.frames()));
                    }
                    return r;
                },
                DirectiveScan::End => {
                    proof {
                        if fresh {
                            lemma_first_local_skip(toks0, cur.next as int, cur.tokens@.len() as int);
                            assert(first_local(toks0, 0) is None);
                        }
                    }
                    let expanded = splice(cur.source.as_str(), &cur.pieces);
                    let ghost spliced_text = expanded@;
                    proof {
                        lemma_first_local_skip(cur.tokens@, cur.next as int, cur.tokens@.len() as int);
                        if fresh {
                            assert(cur.pieces@ =~= Seq::<Piece>::empty());
                            assert(encode_utf8(expanded@) == encode_utf8(text0).subrange(0, encode_utf8(text0).len() as int));
                            assert(encode_utf8(text0).subrange(0, encode_utf8(text0).len() as int) =~= encode_utf8(text0));
                            vstd::utf8::encode_utf8_decode_utf8(expanded@);
                            vstd::utf8::encode_utf8_decode_utf8(text0);
                        }
                    }
                    let expanded = if cur.keep_header {
                        expanded
                    } else {
                        strip_version_header(expanded.as_str())
                    };
                    proof {
                        assert(encode_utf8(spliced_text) == spliced(encode_utf8(ch.text), ch.pieces, 0));
                        if !ch.keep_header {
                            assert(stripped(spliced_text, expanded@));
                        }
                        assert(frame_result(ch, expanded@));
                    }
                    let ghost before = self.frames@;
                    match self.frames.pop() {
                        None => {
                            assert(self.paths() =~= Seq::<Seq<char>>::empty());
                            let r = IncludeStep::Done(expanded);
                            assert(read_start(outermost, opened, text0, toks0, errs0, r));
                            proof {
                                assert(first_local(ch.toks, ch.next) is None);
                                assert(fh.len() == 0);
                                assert(frame_result(ch, expanded@));
                                assert(self.frames() =~= Seq::<FrameView>::empty());
                                assert(read_outcome(fh, ch, r, self.frames()));
                                assert(read_outcome(frames0v, start_view, r, self.frames()));
                            }
                            return r;
                        },
                        Some(mut parent) => {
                            proof {
                                assert(self.frames@ =~= before.drop_last());
                                assert(parent == before.last());
                                assert(frame_ok(before[before.len() - 1]));
                                assert(before[before.len() - 1].pending is Some);
                            }
                            let (start, end, target) = match parent.pending.take() {
                                Some(w) => w,
                                None => {
                                    self.abandon();
                                    return IncludeStep::Done(expanded);
                                },
                            };
                            let mut piece_text = string_of("// expanded ");
                            piece_text.append(target.as_str());
                            piece_text.append("\n");
                            piece_text.append(expanded.as_str());
                            let piece = Piece { start, end, text: piece_text };
                            proof {
                                lemma_pieces_push(encode_utf8(parent.source@), parent.pieces@, 0, piece);
                            }
                            parent.pieces.push(piece);
                            proof {
                                assert(frame_paths(before) =~= frame_paths(self.frames@).push(parent.path@));
                                assert(frame_paths(before).push(cur.path@).drop_last() =~= frame_paths(before));
                                assert(full.take(self.frames@.len() + 1int) =~= full.take(before.len() + 1int).drop_last());
                                assert forall|a: int, b: int|
                                    0 <= a < b < frame_paths(self.frames@).push(parent.path@).len() implies frame_paths(
                                        self.frames@,
                                    ).push(parent.path@)[a] != frame_paths(self.frames@).push(parent.path@)[b] by {
                                    assert(frame_paths(self.frames@).push(parent.path@)[a] == frame_paths(before).push(
                                        cur.path@,
                                    )[a]);
                                    assert(frame_paths(self.frames@).push(parent.path@)[b] == frame_paths(before).push(
                                        cur.path@,
                                    )[b]);
                                }
                            }
                            proof {
                                let p2 = frame_view(parent);
                                assert(fh.last() == frame_view(before.last()));
                                assert(parent.pieces@.drop_last() =~= before.last().pieces@);
                                assert(piece_added(p2, fh.last(), expanded@));
                                assert(frame_views(self.frames@) =~= fh.drop_last());
                                assert forall|rr: IncludeStep, g: Seq<FrameView>|
                                    #[trigger] read_outcome(frame_views(self.frames@), frame_view(parent), rr, g) implies read_outcome(
                                        frames0v,
                                        start_view,
                                        rr,
                                        g,
                                    ) by {
                                    assert(first_local(ch.toks, ch.next) is None);
                                    assert(frame_result(ch, expanded@) && piece_added(p2, fh.last(), expanded@));
                                    assert(read_outcome(fh, ch, rr, g));
                                }
                            }
                            cur = parent;
                            proof {
                                if fresh {
                                    assert(!outermost);
                                    assert(first_local(toks0, 0) is None);
                                }
                                fresh = false;
                            }
                        },
                    }
                },
            }
        }
    }
}

} // verus!
