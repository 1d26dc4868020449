//! Reading an escaped path back: the inverse of the escaping.
use crate::error::Error;
use crate::escape::{escape_byte, escape_bytes, hex_pair, lemma_escape_front};
use crate::text::{
    alphanumeric, digit, is_whitespace, punctuation, whitespace, BACKSLASH, CARRIAGE_RETURN,
    NEWLINE, QUOTE, TAB,
};
use vstd::prelude::*;

verus! {

/// The value of a hexadecimal digit, in either case.
pub open spec fn hex_value(b: u8) -> Option<u8> {
    if 0x30 <= b <= 0x39 {
        Some((b - 0x30) as u8)
    } else if 0x61 <= b <= 0x66 {
        Some((b - 0x61 + 10) as u8)
    } else if 0x41 <= b <= 0x46 {
        Some((b - 0x41 + 10) as u8)
    } else {
        None
    }
}

/// The escape sequence whose backslash stands at `at`: the byte it stands
/// for and how many bytes it takes up, or `None` where it is malformed.
///
/// The sequences are `\\`, `\n`, `\r`, `\t` and `\x` with two hexadecimal
/// digits. A backslash at the end of the input, any other character after
/// it, and `\x` without two digits are malformed.
pub open spec fn escape_sequence(src: Seq<u8>, at: int) -> Option<(u8, int)> {
    if at + 1 >= src.len() {
        None
    } else {
        let c = src[at + 1];
        if c == BACKSLASH {
            Some((BACKSLASH, 2))
        } else if c == 0x6e {
            Some((NEWLINE, 2))
        } else if c == 0x72 {
            Some((CARRIAGE_RETURN, 2))
        } else if c == 0x74 {
            Some((TAB, 2))
        } else if c == 0x78 && at + 3 < src.len() {
            match (hex_value(src[at + 2]), hex_value(src[at + 3])) {
                (Some(high), Some(low)) => Some(((high * 16 + low) as u8, 4)),
                _ => None,
            }
        } else {
            None
        }
    }
}

/// Whether `b` ends the record: a quote in a quoted record, whitespace in
/// a bare one.
pub open spec fn ends_record(b: u8, quoted: bool) -> bool {
    if quoted {
        b == QUOTE
    } else {
        whitespace(b)
    }
}

/// Puts `byte` in front of what was decoded behind it.
pub open spec fn prepend(byte: u8, rest: Option<(Seq<u8>, int)>) -> Option<(Seq<u8>, int)> {
    match rest {
        Some((bytes, end)) => Some((seq![byte] + bytes, end)),
        None => None,
    }
}

/// The record that starts at `from`: its decoded bytes and the place where
/// it ends, which is the end of the input or the byte that ends the
/// record. `None` where an escape sequence in it is malformed.
pub open spec fn unescaped(src: Seq<u8>, from: int, quoted: bool) -> Option<(Seq<u8>, int)>
    decreases src.len() - from,
{
    if from < 0 || from >= src.len() || ends_record(src[from], quoted) {
        Some((Seq::empty(), from))
    } else if src[from] != BACKSLASH {
        prepend(src[from], unescaped(src, from + 1, quoted))
    } else {
        match escape_sequence(src, from) {
            Some((byte, width)) => prepend(byte, unescaped(src, from + width, quoted)),
            None => None,
        }
    }
}

/// The path that starts at `from`, or `None` where it is malformed.
///
/// After a quote the path runs to the next quote, which must be there;
/// otherwise it runs to the next whitespace or to the end of the input.
pub open spec fn unescaped_path(src: Seq<u8>, from: int) -> Option<Seq<u8>> {
    if 0 <= from < src.len() && src[from] == QUOTE {
        match unescaped(src, from + 1, true) {
            Some((bytes, end)) => if end < src.len() {
                Some(bytes)
            } else {
                None
            },
            None => None,
        }
    } else {
        match unescaped(src, from, false) {
            Some((bytes, _)) => Some(bytes),
            None => None,
        }
    }
}

fn hex_digit_value(b: u8) -> (r: Option<u8>)
    ensures
        r == hex_value(b),
{
    if 0x30 <= b && b <= 0x39 {
        Some(b - 0x30)
    } else if 0x61 <= b && b <= 0x66 {
        Some(b - 0x61 + 10)
    } else if 0x41 <= b && b <= 0x46 {
        Some(b - 0x41 + 10)
    } else {
        None
    }
}

fn read_escape_sequence(src: &[u8], at: usize) -> (r: Option<(u8, usize)>)
    requires
        at < src@.len(),
    ensures
        match escape_sequence(src@, at as int) {
            Some((byte, width)) => r == Some((byte, (at + width) as usize)) && at + width
                <= src@.len(),
            None => r is None,
        },
{
    if src.len() - at < 2 {
        return None;
    }
    let c = src[at + 1];
    if c == BACKSLASH {
        Some((BACKSLASH, at + 2))
    } else if c == 0x6e {
        Some((NEWLINE, at + 2))
    } else if c == 0x72 {
        Some((CARRIAGE_RETURN, at + 2))
    } else if c == 0x74 {
        Some((TAB, at + 2))
    } else if c == 0x78 && src.len() - at >= 4 {
        match (hex_digit_value(src[at + 2]), hex_digit_value(src[at + 3])) {
            (Some(high), Some(low)) => Some((high * 16 + low, at + 4)),
            _ => None,
        }
    } else {
        None
    }
}

fn record_ends(src: &[u8], at: usize, quoted: bool) -> (r: bool)
    ensures
        r == (at >= src@.len() || ends_record(src@[at as int], quoted)),
{
    if at >= src.len() {
        true
    } else if quoted {
        src[at] == QUOTE
    } else {
        is_whitespace(src[at])
    }
}

/// What the whole record decodes to, given that `done` was decoded up to
/// some place and `rest` is what the record decodes to from there.
pub open spec fn continued(done: Seq<u8>, rest: Option<(Seq<u8>, int)>) -> Option<(Seq<u8>, int)> {
    match rest {
        Some((bytes, end)) => Some((done + bytes, end)),
        None => None,
    }
}

/// Decodes the record that starts at `from`.
///
/// With `end_of_record_is_quote` the record runs to the next `"`, else to
/// the next ASCII whitespace; either way it also ends where the input
/// ends. Returns the decoded bytes and the place where the record ended;
/// the byte there, if any, is not consumed. Fails exactly where an escape
/// sequence of the record is malformed.
pub fn impl_unescape_path_until(src: &[u8], from: usize, end_of_record_is_quote: bool) -> (r:
    Result<(Vec<u8>, usize), Error>)
    ensures
        match unescaped(src@, from as int, end_of_record_is_quote) {
            Some((bytes, end)) => r matches Ok((buf, stop)) && buf@ == bytes && stop == end,
            None => r == Err::<(Vec<u8>, usize), Error>(Error::MalformedTmpfilesPath),
        },
{
    let mut buf: Vec<u8> = Vec::new();
    let mut at: usize = from;
    let ghost whole = unescaped(src@, from as int, end_of_record_is_quote);
    assert(continued(buf@, whole) =~= whole) by {
        if let Some((bytes, end)) = whole {
            assert(buf@ + bytes =~= bytes);
        }
    }
    while !record_ends(src, at, end_of_record_is_quote)
        invariant
            whole == unescaped(src@, from as int, end_of_record_is_quote),
            whole == continued(buf@, unescaped(src@, at as int, end_of_record_is_quote)),
        decreases src@.len() - at,
    {
        let ghost before = buf@;
        let ghost here = unescaped(src@, at as int, end_of_record_is_quote);
        let c = src[at];
        if c != BACKSLASH {
            buf.push(c);
            at = at + 1;
            proof {
                let next = unescaped(src@, at as int, end_of_record_is_quote);
                assert(here == prepend(c, next));
                if let Some((bytes, end)) = next {
                    assert(before + (seq![c] + bytes) =~= buf@ + bytes);
                }
            }
        } else {
            match read_escape_sequence(src, at) {
                None => {
                    return Err(Error::MalformedTmpfilesPath);
                },
                Some((byte, next_at)) => {
                    buf.push(byte);
                    at = next_at;
                    proof {
                        let next = unescaped(src@, at as int, end_of_record_is_quote);
                        assert(here == prepend(byte, next));
                        if let Some((bytes, end)) = next {
                            assert(before + (seq![byte] + bytes) =~= buf@ + bytes);
                        }
                    }
                },
            }
        }
    }
    assert(buf@ + Seq::<u8>::empty() =~= buf@);
    Ok((buf, at))
}

/// Decodes the path that starts at `from`, quoted or bare.
///
/// Fails exactly where an escape sequence of the path is malformed or a
/// quoted path has no closing quote.
pub fn unescape_path(src: &[u8], from: usize) -> (r: Result<Vec<u8>, Error>)
    ensures
        match unescaped_path(src@, from as int) {
            Some(bytes) => r matches Ok(path) && path@ == bytes,
            None => r == Err::<Vec<u8>, Error>(Error::MalformedTmpfilesPath),
        },
{
    if from < src.len() && src[from] == QUOTE {
        match impl_unescape_path_until(src, from + 1, true) {
            Ok((path, end)) => {
                if end < src.len() {
                    Ok(path)
                } else {
                    Err(Error::MalformedTmpfilesPath)
                }
            },
            Err(e) => Err(e),
        }
    } else {
        match impl_unescape_path_until(src, from, false) {
            Ok((path, _)) => Ok(path),
            Err(e) => Err(e),
        }
    }
}

/// The two hexadecimal digits of a byte give the byte back.
pub proof fn lemma_hex_round_trip(b: u8)
    ensures
        hex_value(hex_pair(b)[0]) == Some((b / 16) as u8),
        hex_value(hex_pair(b)[1]) == Some((b % 16) as u8),
        (b / 16) * 16 + b % 16 == b,
{
}

/// Where the escaped form of `path` stands in `src` at `at`, followed by
/// whitespace or by the end of the input, the bare record read there is
/// `path`, and it ends where the escaped form ends.
pub proof fn lemma_unescape_escaped(path: Seq<u8>, src: Seq<u8>, at: int)
    requires
        0 <= at,
        at + escape_bytes(path).len() <= src.len(),
        src.subrange(at, at + escape_bytes(path).len()) == escape_bytes(path),
        at + escape_bytes(path).len() == src.len() || whitespace(
            src[at + escape_bytes(path).len()],
        ),
    ensures
        unescaped(src, at, false) == Some((path, at + escape_bytes(path).len())),
    decreases path.len(),
{
    let whole = escape_bytes(path);
    if path.len() == 0 {
        assert(whole.len() == 0);
    } else {
        lemma_escape_front(path);
        let b = path[0];
        let rest = path.drop_first();
        let head = escape_byte(b);
        let tail = escape_bytes(rest);
        assert(whole == head + tail);
        assert forall|k: int| 0 <= k < head.len() implies src[at + k] == head[k] by {
            assert(src.subrange(at, at + whole.len())[k] == whole[k]);
        }
        let next = at + head.len();
        assert(src.subrange(next, next + tail.len()) =~= tail) by {
            assert forall|k: int| 0 <= k < tail.len() implies src[next + k] == tail[k] by {
                assert(src.subrange(at, at + whole.len())[head.len() + k] == whole[head.len() + k]);
            }
        }
        lemma_unescape_escaped(rest, src, next);
        lemma_hex_round_trip(b);
        assert(src[at] == head[0]);
        if b != BACKSLASH && (alphanumeric(b) || punctuation(b)) {
            assert(!whitespace(b));
        } else {
            assert(src[at] == BACKSLASH);
            assert(src[at + 1] == head[1]);
            if head.len() == 4 {
                assert(src[at + 2] == head[2]);
                assert(src[at + 3] == head[3]);
                assert(head[2] == hex_pair(b)[0]);
                assert(head[3] == hex_pair(b)[1]);
            }
            assert(escape_sequence(src, at) == Some((b, head.len() as int)));
        }
        assert(seq![b] + rest =~= path);
    }
}

/// Reading back what was written gives the path that was written: for
/// every path that is not empty and does not begin with a quote, the
/// escaped form decodes to the path itself.
pub proof fn lemma_escape_round_trip(path: Seq<u8>)
    requires
        path.len() > 0,
        path[0] != QUOTE,
    ensures
        unescaped_path(escape_bytes(path), 0) == Some(path),
{
    let src = escape_bytes(path);
    lemma_escape_front(path);
    assert(src[0] == escape_byte(path[0])[0]);
    assert(src[0] != QUOTE);
    assert(src.subrange(0, src.len() as int) =~= src);
    lemma_unescape_escaped(path, src, 0);
}

} // verus!
