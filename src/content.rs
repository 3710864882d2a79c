//! Turning a remote file into the text the cache stores: transport decoding,
//! the summary/body split and the display name of a document.

use base64::Engine;
use vstd::prelude::*;
use vstd::utf8::{decode_utf8, valid_utf8};
use crate::error::SyncError;
use crate::text::{chars_of, push_char, push_range};

verus! {

/// The lines of `s`: the pieces between `'\n'` characters, in order. A text
/// with `n` line breaks has `n + 1` lines; the empty text has one empty line.
pub open spec fn lines_of(s: Seq<char>) -> Seq<Seq<char>>
    decreases s.len(),
{
    if s.len() == 0 {
        seq![Seq::<char>::empty()]
    } else {
        let prev = lines_of(s.drop_last());
        if s.last() == '\n' {
            prev.push(Seq::<char>::empty())
        } else {
            prev.update(prev.len() - 1, prev.last().push(s.last()))
        }
    }
}

/// `parts` joined with `sep` between each two neighbours.
pub open spec fn join(parts: Seq<Seq<char>>, sep: Seq<char>) -> Seq<char>
    decreases parts.len(),
{
    if parts.len() == 0 {
        Seq::<char>::empty()
    } else if parts.len() == 1 {
        parts[0]
    } else {
        join(parts.drop_last(), sep) + sep + parts.last()
    }
}

/// A summary line starts with the three-character sigil `///`.
pub open spec fn is_summary_line(line: Seq<char>) -> bool {
    line.len() >= 3 && line[0] == '/' && line[1] == '/' && line[2] == '/'
}

/// The summary pieces of some lines: the summary lines, sigil removed.
pub open spec fn summary_pieces(lines: Seq<Seq<char>>) -> Seq<Seq<char>> {
    lines.filter(|l: Seq<char>| is_summary_line(l)).map_values(|l: Seq<char>| l.skip(3))
}

/// The body lines among some lines: all that are not summary lines.
pub open spec fn body_lines(lines: Seq<Seq<char>>) -> Seq<Seq<char>> {
    lines.filter(|l: Seq<char>| !is_summary_line(l))
}

/// The summary of a text: its summary pieces joined with single spaces.
pub open spec fn summary_of(text: Seq<char>) -> Seq<char> {
    join(summary_pieces(lines_of(text)), seq![' '])
}

/// The body of a text: its other lines joined with line breaks.
pub open spec fn body_of(text: Seq<char>) -> Seq<char> {
    join(body_lines(lines_of(text)), seq!['\n'])
}

pub proof fn lemma_lines_nonempty(s: Seq<char>)
    ensures
        lines_of(s).len() >= 1,
    decreases s.len(),
{
    if s.len() > 0 {
        lemma_lines_nonempty(s.drop_last());
    }
}

proof fn lemma_join_push(parts: Seq<Seq<char>>, sep: Seq<char>, x: Seq<char>)
    ensures
        join(parts.push(x), sep) == if parts.len() == 0 {
            x
        } else {
            join(parts, sep) + sep + x
        },
{
    assert(parts.push(x).drop_last() == parts);
}

proof fn lemma_pieces_push(lines: Seq<Seq<char>>, x: Seq<char>)
    ensures
        summary_pieces(lines.push(x)) == if is_summary_line(x) {
            summary_pieces(lines).push(x.skip(3))
        } else {
            summary_pieces(lines)
        },
        body_lines(lines.push(x)) == if is_summary_line(x) {
            body_lines(lines)
        } else {
            body_lines(lines).push(x)
        },
{
    lines.lemma_filter_push(x, |l: Seq<char>| is_summary_line(l));
    lines.lemma_filter_push(x, |l: Seq<char>| !is_summary_line(l));
    let f = lines.filter(|l: Seq<char>| is_summary_line(l));
    assert(f.push(x).map_values(|l: Seq<char>| l.skip(3)) == f.map_values(|l: Seq<char>| l.skip(3)).push(x.skip(3)));
}

proof fn lemma_join_lines(s: Seq<char>)
    ensures
        join(lines_of(s), seq!['\n']) == s,
    decreases s.len(),
{
    if s.len() > 0 {
        let p = s.drop_last();
        let c = s.last();
        let l = lines_of(p);
        lemma_join_lines(p);
        lemma_lines_nonempty(p);
        assert(s == p.push(c));
        if c == '\n' {
            lemma_join_push(l, seq!['\n'], Seq::<char>::empty());
            assert(p + seq!['\n'] + Seq::<char>::empty() == s);
        } else {
            let l2 = l.update(l.len() - 1, l.last().push(c));
            if l.len() == 1 {
                assert(join(l2, seq!['\n']) == l2[0]);
            } else {
                assert(l2.drop_last() == l.drop_last());
                assert(join(l2, seq!['\n']) == join(l.drop_last(), seq!['\n']) + seq!['\n'] + l.last().push(c));
                assert(join(l.drop_last(), seq!['\n']) + seq!['\n'] + l.last().push(c) == (join(
                    l.drop_last(),
                    seq!['\n'],
                ) + seq!['\n'] + l.last()).push(c));
            }
        }
    }
}

proof fn lemma_filter_keeps_all(ls: Seq<Seq<char>>)
    requires
        forall|i: int| 0 <= i < ls.len() ==> !is_summary_line(#[trigger] ls[i]),
    ensures
        body_lines(ls) == ls,
        summary_pieces(ls).len() == 0,
    decreases ls.len(),
{
    if ls.len() > 0 {
        let init = ls.drop_last();
        assert forall|i: int| 0 <= i < init.len() implies !is_summary_line(#[trigger] init[i]) by {
            assert(init[i] == ls[i]);
        }
        lemma_filter_keeps_all(init);
        assert(ls == init.push(ls.last()));
        lemma_pieces_push(init, ls.last());
    } else {
        assert(ls.filter(|l: Seq<char>| is_summary_line(l)).len() == 0) by {
            reveal(Seq::filter);
        }
        assert(ls.filter(|l: Seq<char>| !is_summary_line(l)) == ls) by {
            reveal(Seq::filter);
        }
    }
}

/// A text none of whose lines starts with `///` has an empty summary, and
/// its body is the text itself.
pub proof fn lemma_no_summary_lines(text: Seq<char>)
    requires
        forall|i: int| 0 <= i < lines_of(text).len() ==> !is_summary_line(#[trigger] lines_of(text)[i]),
    ensures
        summary_of(text) == Seq::<char>::empty(),
        body_of(text) == text,
{
    lemma_filter_keeps_all(lines_of(text));
    lemma_join_lines(text);
}

/// Appends one finished line to whichever accumulator it belongs to.
fn add_line(
    line: &Vec<char>,
    summary: &mut String,
    has_summary: &mut bool,
    body: &mut String,
    has_body: &mut bool,
    Ghost(done): Ghost<Seq<Seq<char>>>,
)
    requires
        old(summary)@ == join(summary_pieces(done), seq![' ']),
        *old(has_summary) == (summary_pieces(done).len() > 0),
        old(body)@ == join(body_lines(done), seq!['\n']),
        *old(has_body) == (body_lines(done).len() > 0),
    ensures
        final(summary)@ == join(summary_pieces(done.push(line@)), seq![' ']),
        *final(has_summary) == (summary_pieces(done.push(line@)).len() > 0),
        final(body)@ == join(body_lines(done.push(line@)), seq!['\n']),
        *final(has_body) == (body_lines(done.push(line@)).len() > 0),
{
    proof {
        lemma_pieces_push(done, line@);
    }
    let n = line.len();
    if n >= 3 && line[0] == '/' && line[1] == '/' && line[2] == '/' {
        proof {
            lemma_join_push(summary_pieces(done), seq![' '], line@.skip(3));
            assert(line@.subrange(3, n as int) == line@.skip(3));
        }
        if *has_summary {
            push_char(summary, ' ');
        }
        push_range(summary, line, 3, n);
        *has_summary = true;
    } else {
        proof {
            lemma_join_push(body_lines(done), seq!['\n'], line@);
            assert(line@.subrange(0, n as int) == line@);
        }
        if *has_body {
            push_char(body, '\n');
        }
        push_range(body, line, 0, n);
        *has_body = true;
    }
}

/// Splits a document's text into its summary and its body, in one pass over
/// its lines: a line that starts with `///` gives its remainder to the summary,
/// every other line goes to the body. Summary pieces are joined with single
/// spaces and body lines with line breaks, each in their original order.
pub fn split_summary_and_body(text: &str) -> (r: (String, String))
    ensures
        r.0@ == summary_of(text@),
        r.1@ == body_of(text@),
{
    let mut summary = String::new();
    let mut body = String::new();
    let mut has_summary = false;
    let mut has_body = false;
    let mut line: Vec<char> = Vec::new();
    proof {
        assert(text@.take(0).len() == 0);
        assert(lines_of(text@.take(0)).drop_last() =~= Seq::<Seq<char>>::empty());
        assert(summary_pieces(Seq::<Seq<char>>::empty()) =~= Seq::<Seq<char>>::empty());
        assert(body_lines(Seq::<Seq<char>>::empty()) =~= Seq::<Seq<char>>::empty());
    }
    for c in it: text.chars()
        invariant
            it.seq() == text@,
            lines_of(text@.take(it.index())).len() >= 1,
            line@ == lines_of(text@.take(it.index())).last(),
            summary@ == join(summary_pieces(lines_of(text@.take(it.index())).drop_last()), seq![' ']),
            has_summary == (summary_pieces(lines_of(text@.take(it.index())).drop_last()).len() > 0),
            body@ == join(body_lines(lines_of(text@.take(it.index())).drop_last()), seq!['\n']),
            has_body == (body_lines(lines_of(text@.take(it.index())).drop_last()).len() > 0),
    {
        let ghost prefix = text@.take(it.index());
        let ghost next = text@.take(it.index() + 1);
        proof {
            assert(next.drop_last() == prefix);
            assert(next.last() == c);
        }
        if c == '\n' {
            proof {
                assert(lines_of(prefix) == lines_of(prefix).drop_last().push(line@));
            }
            add_line(&line, &mut summary, &mut has_summary, &mut body, &mut has_body,
                Ghost(lines_of(prefix).drop_last()));
            line = Vec::new();
            proof {
                assert(lines_of(next).drop_last() == lines_of(prefix));
            }
        } else {
            line.push(c);
            proof {
                assert(lines_of(next).drop_last() == lines_of(prefix).drop_last());
            }
        }
    }
    proof {
        assert(text@.take(text@.len() as int) == text@);
        assert(lines_of(text@) == lines_of(text@).drop_last().push(line@));
    }
    add_line(&line, &mut summary, &mut has_summary, &mut body, &mut has_body,
        Ghost(lines_of(text@).drop_last()));
    (summary, body)
}

/// `s` without its line breaks.
pub open spec fn without_newlines(s: Seq<char>) -> Seq<char> {
    s.filter(|c: char| c != '\n')
}

/// `s` with every `'\n'` removed.
pub fn remove_newlines(s: &str) -> (r: String)
    ensures
        r@ == without_newlines(s@),
{
    let ghost pred = |c: char| c != '\n';
    let mut out = String::new();
    for c in it: s.chars()
        invariant
            it.seq() == s@,
            pred == (|c: char| c != '\n'),
            out@ == s@.take(it.index()).filter(pred),
    {
        proof {
            assert(s@.take(it.index() + 1) == s@.take(it.index()).push(c));
            s@.take(it.index()).lemma_filter_push(c, pred);
        }
        if c != '\n' {
            push_char(&mut out, c);
        }
    }
    proof {
        assert(s@.take(s@.len() as int) == s@);
    }
    out
}

#[verifier::external_type_specification]
#[verifier::external_body]
pub struct ExBase64DecodeError(base64::DecodeError);

/// The bytes that standard, canonically padded base64 decodes `encoded` to,
/// or `None` where it is not valid base64.
pub uninterp spec fn base64_decoded(encoded: Seq<char>) -> Option<Seq<u8>>;

/// Relies on base64's `Engine::decode`, with the standard alphabet and the
/// default configuration (canonical padding): the decoded bytes, or an error
/// for malformed input.
#[verifier::external_body]
fn decode_base64(encoded: &str) -> (r: Result<Vec<u8>, base64::DecodeError>)
    ensures
        match base64_decoded(encoded@) {
            Some(b) => r is Ok && r->Ok_0@ == b,
            None => r is Err,
        },
{
    let engine = base64::engine::general_purpose::GeneralPurpose::new(
        &base64::alphabet::STANDARD,
        base64::engine::GeneralPurposeConfig::new(),
    );
    engine.decode(encoded)
}

/// The text that lossy UTF-8 decoding makes of `bytes`: invalid sequences
/// become U+FFFD.
pub uninterp spec fn utf8_lossy(bytes: Seq<u8>) -> Seq<char>;

/// Relies on `String::from_utf8_lossy`: decodes UTF-8, putting U+FFFD in place
/// of invalid sequences; valid UTF-8 is decoded as it is.
#[verifier::external_body]
fn decode_utf8_lossy(bytes: &Vec<u8>) -> (r: String)
    ensures
        r@ == utf8_lossy(bytes@),
        valid_utf8(bytes@) ==> r@ == decode_utf8(bytes@),
{
    String::from_utf8_lossy(bytes.as_slice()).into_owned()
}

/// The text of a remote file from its transport envelope: line breaks are
/// removed, the rest is decoded as base64 and the bytes as UTF-8, with U+FFFD
/// for invalid sequences. Malformed base64 is a decode error.
pub fn decode_file_content(encoded: &str) -> (r: Result<String, SyncError>)
    ensures
        match base64_decoded(without_newlines(encoded@)) {
            Some(b) => r is Ok && r->Ok_0@ == utf8_lossy(b),
            None => r == Err::<String, SyncError>(SyncError::Decode),
        },
{
    let compact = remove_newlines(encoded);
    match decode_base64(compact.as_str()) {
        Ok(bytes) => Ok(decode_utf8_lossy(&bytes)),
        Err(_) => Err(SyncError::Decode),
    }
}

} // verus!
