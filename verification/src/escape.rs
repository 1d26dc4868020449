//! The text form of a path in `tmpfiles.d`: escaping, unescaping, and the
//! one canonicalisation (`/var/run` is written `/run`).
use crate::error::Error;
use crate::text::{
    all_ascii, alphanumeric, digit, digit_byte, is_alphanumeric, is_punctuation, lemma_text_concat,
    punctuation, push_byte, text, whitespace, BACKSLASH, CARRIAGE_RETURN, NEWLINE, SLASH, TAB,
};
use vstd::prelude::*;
use vstd::slice::slice_subrange;

verus! {

/// The two hexadecimal digits of `b`, in lower case.
pub open spec fn hex_pair(b: u8) -> Seq<u8> {
    seq![digit((b / 16) as nat), digit((b % 16) as nat)]
}

/// How one byte of a path is written.
///
/// A backslash is doubled. Letters, digits and punctuation stand for
/// themselves. Line feed, tab and carriage return are `\n`, `\t`, `\r`.
/// Every other byte is `\x` and its two hexadecimal digits.
pub open spec fn escape_byte(b: u8) -> Seq<u8> {
    if b == BACKSLASH {
        seq![BACKSLASH, BACKSLASH]
    } else if alphanumeric(b) || punctuation(b) {
        seq![b]
    } else if b == NEWLINE {
        seq![BACKSLASH, 0x6eu8]
    } else if b == TAB {
        seq![BACKSLASH, 0x74u8]
    } else if b == CARRIAGE_RETURN {
        seq![BACKSLASH, 0x72u8]
    } else {
        seq![BACKSLASH, 0x78u8] + hex_pair(b)
    }
}

/// How a path is written: byte by byte.
pub open spec fn escape_bytes(path: Seq<u8>) -> Seq<u8>
    decreases path.len(),
{
    if path.len() == 0 {
        Seq::empty()
    } else {
        escape_bytes(path.drop_last()) + escape_byte(path.last())
    }
}

/// Every byte is a letter, a digit or `/`.
pub open spec fn plain(path: Seq<u8>) -> bool {
    forall|i: int| 0 <= i < path.len() ==> alphanumeric(#[trigger] path[i]) || path[i] == SLASH
}

/// A plain path is written as it is.
pub proof fn lemma_escape_plain(path: Seq<u8>)
    requires
        plain(path),
    ensures
        escape_bytes(path) == path,
    decreases path.len(),
{
    if path.len() > 0 {
        let front = path.drop_last();
        assert forall|i: int| 0 <= i < front.len() implies alphanumeric(#[trigger] front[i])
            || front[i] == SLASH by {
            assert(front[i] == path[i]);
        }
        lemma_escape_plain(front);
        assert(alphanumeric(path.last()) || path.last() == SLASH);
        assert(escape_bytes(path) =~= path);
    }
}

/// The escaped form can also be read from the front.
pub proof fn lemma_escape_front(path: Seq<u8>)
    requires
        path.len() > 0,
    ensures
        escape_bytes(path) == escape_byte(path[0]) + escape_bytes(path.drop_first()),
    decreases path.len(),
{
    let front = path.drop_last();
    let rest = path.drop_first();
    if front.len() == 0 {
        assert(escape_bytes(front) =~= Seq::<u8>::empty());
        assert(escape_bytes(rest) =~= Seq::<u8>::empty());
        assert(escape_bytes(path) =~= escape_byte(path[0]) + escape_bytes(rest));
    } else {
        lemma_escape_front(front);
        assert(rest.drop_last() =~= front.drop_first());
        assert(rest.last() == path.last());
        assert(front[0] == path[0]);
        assert(escape_bytes(path) =~= escape_byte(path[0]) + escape_bytes(rest));
    }
}

/// The escaped form holds ASCII only, and no whitespace.
pub proof fn lemma_escape_is_ascii(path: Seq<u8>)
    ensures
        all_ascii(escape_bytes(path)),
        forall|i: int| 0 <= i < escape_bytes(path).len() ==> !whitespace(#[trigger] escape_bytes(path)[i]),
    decreases path.len(),
{
    if path.len() > 0 {
        lemma_escape_is_ascii(path.drop_last());
        let head = escape_bytes(path.drop_last());
        let tail = escape_byte(path.last());
        assert forall|i: int| 0 <= i < tail.len() implies tail[i] < 0x80 && !whitespace(
            #[trigger] tail[i],
        ) by {}
        assert forall|i: int| 0 <= i < escape_bytes(path).len() implies escape_bytes(path)[i] < 0x80
            && !whitespace(#[trigger] escape_bytes(path)[i]) by {
            if i < head.len() {
                assert(escape_bytes(path)[i] == head[i]);
            } else {
                assert(escape_bytes(path)[i] == tail[i - head.len()]);
            }
        }
    }
}

fn push_escaped_byte(out: &mut String, b: u8)
    ensures
        final(out)@ == old(out)@ + text(escape_byte(b)),
{
    let printable = is_alphanumeric(b) || is_punctuation(b);
    if printable && b != BACKSLASH {
        push_byte(out, b);
    } else {
        push_byte(out, BACKSLASH);
        if b == BACKSLASH {
            push_byte(out, BACKSLASH);
        } else if b == NEWLINE {
            push_byte(out, 0x6e);
        } else if b == TAB {
            push_byte(out, 0x74);
        } else if b == CARRIAGE_RETURN {
            push_byte(out, 0x72);
        } else {
            push_byte(out, 0x78);
            push_byte(out, digit_byte((b / 16) as u64));
            push_byte(out, digit_byte((b % 16) as u64));
        }
    }
    assert(out@ =~= old(out)@ + text(escape_byte(b)));
}

fn is_plain(path: &[u8]) -> (r: bool)
    ensures
        r == plain(path@),
{
    let mut i: usize = 0;
    while i < path.len()
        invariant
            i <= path.len(),
            forall|k: int| 0 <= k < i ==> alphanumeric(#[trigger] path@[k]) || path@[k] == SLASH,
        decreases path.len() - i,
    {
        if !(is_alphanumeric(path[i]) || path[i] == SLASH) {
            return false;
        }
        i = i + 1;
    }
    true
}

/// Writes `path` to `out` in its escaped form.
///
/// An empty path cannot be written: that is the one error, and `out` is
/// then left as it was.
pub fn escape_path(path: &[u8], out: &mut String) -> (r: Result<(), Error>)
    ensures
        path@.len() == 0 ==> r == Err::<(), Error>(Error::Fmt) && final(out)@ == old(out)@,
        path@.len() > 0 ==> r is Ok && final(out)@ == old(out)@ + text(escape_bytes(path@)),
{
    if path.len() == 0 {
        return Err(Error::Fmt);
    }
    if is_plain(path) {
        let mut i: usize = 0;
        while i < path.len()
            invariant
                i <= path.len(),
                out@ == old(out)@ + text(path@.take(i as int)),
            decreases path.len() - i,
        {
            push_byte(out, path[i]);
            assert(path@.take(i + 1) =~= path@.take(i as int) + seq![path@[i as int]]);
            proof {
                lemma_text_concat(path@.take(i as int), seq![path@[i as int]]);
            }
            i = i + 1;
        }
        proof {
            assert(path@.take(i as int) =~= path@);
            lemma_escape_plain(path@);
        }
        return Ok(());
    }
    let mut i: usize = 0;
    while i < path.len()
        invariant
            i <= path.len(),
            out@ == old(out)@ + text(escape_bytes(path@.take(i as int))),
        decreases path.len() - i,
    {
        push_escaped_byte(out, path[i]);
        proof {
            let next = path@.take(i + 1);
            assert(next.drop_last() =~= path@.take(i as int));
            assert(next.last() == path@[i as int]);
            lemma_text_concat(escape_bytes(path@.take(i as int)), escape_byte(path@[i as int]));
        }
        i = i + 1;
    }
    assert(path@.take(i as int) =~= path@);
    Ok(())
}

/// The bytes of `/var/run`.
pub open spec fn var_run() -> Seq<u8> {
    seq![0x2fu8, 0x76u8, 0x61u8, 0x72u8, 0x2fu8, 0x72u8, 0x75u8, 0x6eu8]
}

/// The path is `/var/run` or lies below it.
///
/// Only whole components count: `/var/runner` is not under `/var/run`.
pub open spec fn under_var_run(path: Seq<u8>) -> bool {
    &&& path.len() >= 8
    &&& path.take(8) == var_run()
    &&& (path.len() == 8 || path[8] == SLASH)
}

/// The path as `tmpfiles.d` wants it: `/var/run` and what lies below it
/// lose the leading `/var`; every other path stays as it is.
pub open spec fn canonical_path(path: Seq<u8>) -> Seq<u8> {
    if under_var_run(path) {
        path.skip(4)
    } else {
        path
    }
}

fn is_under_var_run(path: &[u8]) -> (r: bool)
    ensures
        r == under_var_run(path@),
{
    if path.len() < 8 {
        return false;
    }
    let matches = path[0] == 0x2f && path[1] == 0x76 && path[2] == 0x61 && path[3] == 0x72
        && path[4] == 0x2f && path[5] == 0x72 && path[6] == 0x75 && path[7] == 0x6e;
    proof {
        if matches {
            assert(path@.take(8) =~= var_run());
        } else {
            let t = path@.take(8);
            assert(t[0] == path@[0] && t[1] == path@[1] && t[2] == path@[2] && t[3] == path@[3]
                && t[4] == path@[4] && t[5] == path@[5] && t[6] == path@[6] && t[7] == path@[7]);
        }
    }
    matches && (path.len() == 8 || path[8] == SLASH)
}

/// Writes `path` to `out`, canonical and escaped.
///
/// An empty path cannot be written: that is the one error, and `out` is
/// then left as it was.
pub fn canonicalize_escape_path(path: &[u8], out: &mut String) -> (r: Result<(), Error>)
    ensures
        path@.len() == 0 ==> r == Err::<(), Error>(Error::Fmt) && final(out)@ == old(out)@,
        path@.len() > 0 ==> r is Ok && final(out)@ == old(out)@ + text(
            escape_bytes(canonical_path(path@)),
        ),
{
    if is_under_var_run(path) {
        let rest = slice_subrange(path, 4, path.len());
        assert(rest@ =~= path@.skip(4));
        escape_path(rest, out)
    } else {
        escape_path(path, out)
    }
}

/// A path below `/var/run` is written as the same path below `/run`, and
/// a canonical path is not changed again.
pub proof fn lemma_canonical_path(rest: Seq<u8>)
    requires
        rest.len() == 0 || rest[0] == SLASH,
    ensures
        canonical_path(var_run() + rest) == var_run().skip(4) + rest,
        canonical_path(var_run().skip(4) + rest) == var_run().skip(4) + rest,
{
    let long = var_run() + rest;
    let short = var_run().skip(4) + rest;
    assert(long.take(8) =~= var_run());
    assert(long.skip(4) =~= short);
    assert(short[1] == 0x72u8);
    if short.len() >= 8 {
        assert(short.take(8)[1] == 0x72u8);
        assert(var_run()[1] == 0x76u8);
    }
}

} // verus!
