//! One line of `tmpfiles.d`: writing it for a directory or a symbolic
//! link, and finding the path that an existing line declares.
use crate::error::Error;
use crate::escape::{
    canonical_path, canonicalize_escape_path, escape_byte, escape_bytes, lemma_escape_front,
    lemma_escape_is_ascii,
};
use crate::text::{
    all_ascii, is_whitespace, lemma_encode_concat, lemma_numeral_digits, lemma_text_bytes, numeral,
    push_padded_numeral, text, whitespace, zero_padded, QUOTE, SPACE,
};
use crate::unescape::{lemma_unescape_escaped, unescape_path, unescaped_path};
use vstd::prelude::*;
use vstd::string::StringExecFns;
use vstd::utf8::encode_utf8;

verus! {

/// The bits of `st_mode` that tell the type of a file.
pub const S_IFMT: u32 = 0o170000;

/// What the filesystem says of one object, symbolic links not followed.
#[derive(Debug, PartialEq, Eq)]
pub enum FsObject {
    /// A directory, with the `st_mode` of its metadata.
    Directory { st_mode: u32 },
    /// A symbolic link, with the path it holds.
    Symlink { target: Vec<u8> },
    /// Anything else: a regular file, a device, a socket, a fifo.
    Other,
}

/// What `tmpfiles.d` can declare: a directory, which has a mode, or a
/// symbolic link, which has a target.
#[derive(Debug, PartialEq, Eq)]
pub enum FileMeta {
    Directory(u32),
    Symlink(Vec<u8>),
}

/// `rustix::fs::Mode::from_raw_mode`, and the bits of the mode it
/// returns: `st_mode` without the bits that tell the file's type. The
/// mode keeps every other bit, since it knows no bit as foreign.
#[verifier::external_body]
fn mode_bits(st_mode: u32) -> (bits: u32)
    ensures
        bits == st_mode & !S_IFMT,
{
    rustix::fs::Mode::from_raw_mode(st_mode).bits()
}

/// What there is to declare of an object: of a directory its mode
/// without the file-type bits, of a symbolic link its target, of anything
/// else nothing.
pub open spec fn meta_of(object: FsObject) -> Option<FileMeta> {
    match object {
        FsObject::Directory { st_mode } => Some(FileMeta::Directory(st_mode & !S_IFMT)),
        FsObject::Symlink { target } => Some(FileMeta::Symlink(target)),
        FsObject::Other => None,
    }
}

impl FileMeta {
    /// Tells what there is to declare of an object, if it can be
    /// declared at all.
    pub fn from_fs(object: FsObject) -> (r: Option<FileMeta>)
        ensures
            r == meta_of(object),
    {
        match object {
            FsObject::Directory { st_mode } => Some(FileMeta::Directory(mode_bits(st_mode))),
            FsObject::Symlink { target } => Some(FileMeta::Symlink(target)),
            FsObject::Other => None,
        }
    }
}

/// The mode as a line shows it: in octal, with at least four digits.
pub open spec fn mode_text(mode: u32) -> Seq<char> {
    text(zero_padded(numeral(mode as nat, 8), 4))
}

/// A path as a line shows it: canonical, then escaped.
pub open spec fn path_text(path: Seq<u8>) -> Seq<char> {
    text(escape_bytes(canonical_path(path)))
}

/// The line that declares `path`.
///
/// For a directory: `d`, the path, the mode, the user, the group and two
/// dashes. For a symbolic link: `L`, the path, four dashes and the target.
pub open spec fn entry_line(path: Seq<u8>, meta: FileMeta, user: Seq<char>, group: Seq<char>) -> Seq<
    char,
> {
    match meta {
        FileMeta::Directory(mode) => "d "@ + path_text(path) + " "@ + mode_text(mode) + " "@ + user
            + " "@ + group + " - -"@,
        FileMeta::Symlink(target) => "L "@ + path_text(path) + " - - - - "@ + path_text(target@),
    }
}

/// Whether a line can be written: neither the path nor, for a symbolic
/// link, the target may be empty.
pub open spec fn can_declare(path: Seq<u8>, meta: FileMeta) -> bool {
    &&& path.len() > 0
    &&& meta matches FileMeta::Symlink(target) ==> target@.len() > 0
}

/// Translates a path and what is known of it into the `tmpfiles.d` line
/// that declares it.
pub fn translate_to_tmpfiles_d(
    abs_path: &[u8],
    meta: FileMeta,
    username: &str,
    groupname: &str,
) -> (r: Result<String, Error>)
    ensures
        can_declare(abs_path@, meta) ==> (r matches Ok(line) && line@ == entry_line(
            abs_path@,
            meta,
            username@,
            groupname@,
        )),
        !can_declare(abs_path@, meta) ==> r == Err::<String, Error>(Error::Fmt),
{
    let mut line = String::new();
    match &meta {
        FileMeta::Directory(_) => line.append("d "),
        FileMeta::Symlink(_) => line.append("L "),
    }
    match canonicalize_escape_path(abs_path, &mut line) {
        Ok(()) => {},
        Err(e) => {
            return Err(e);
        },
    }
    match meta {
        FileMeta::Directory(mode) => {
            line.append(" ");
            push_padded_numeral(&mut line, mode as u64, 8, 4);
            line.append(" ");
            line.append(username);
            line.append(" ");
            line.append(groupname);
            line.append(" - -");
            assert(line@ =~= entry_line(abs_path@, meta, username@, groupname@));
        },
        FileMeta::Symlink(target) => {
            line.append(" - - - - ");
            match canonicalize_escape_path(target.as_slice(), &mut line) {
                Ok(()) => {},
                Err(e) => {
                    return Err(e);
                },
            }
            assert(line@ =~= entry_line(abs_path@, meta, username@, groupname@));
        },
    }
    Ok(line)
}

/// The first place from `from` on that holds no whitespace.
pub open spec fn skip_whitespace(src: Seq<u8>, from: int) -> int
    decreases src.len() - from,
{
    if 0 <= from < src.len() && whitespace(src[from]) {
        skip_whitespace(src, from + 1)
    } else {
        from
    }
}

/// The first place from `from` on that holds whitespace, or the end.
pub open spec fn skip_token(src: Seq<u8>, from: int) -> int
    decreases src.len() - from,
{
    if 0 <= from < src.len() && !whitespace(src[from]) {
        skip_token(src, from + 1)
    } else {
        from
    }
}

/// The path that a line declares, or `None` where the line is malformed.
///
/// The line is: whitespace, the type with its modifiers, whitespace, the
/// path. It is malformed where it has no type, and where the path is.
pub open spec fn declared_path(src: Seq<u8>) -> Option<Seq<u8>> {
    let type_at = skip_whitespace(src, 0);
    let type_end = skip_token(src, type_at);
    if type_end == type_at {
        None
    } else {
        unescaped_path(src, skip_whitespace(src, type_end))
    }
}

fn skip(src: &[u8], from: usize, over_whitespace: bool) -> (r: usize)
    requires
        from <= src@.len(),
    ensures
        from <= r <= src@.len(),
        over_whitespace ==> r == skip_whitespace(src@, from as int),
        !over_whitespace ==> r == skip_token(src@, from as int),
{
    let mut at = from;
    while at < src.len() && is_whitespace(src[at]) == over_whitespace
        invariant
            from <= at <= src@.len(),
            over_whitespace ==> skip_whitespace(src@, at as int) == skip_whitespace(
                src@,
                from as int,
            ),
            !over_whitespace ==> skip_token(src@, at as int) == skip_token(src@, from as int),
        decreases src@.len() - at,
    {
        at = at + 1;
    }
    at
}

/// Finds the path that a `tmpfiles.d` line declares.
///
/// The type may have modifiers attached, so it is skipped as a whole
/// word. Returns the line itself in the error where it is malformed.
pub fn tmpfiles_entry_get_path(line: &str) -> (r: Result<Vec<u8>, Error>)
    ensures
        match declared_path(encode_utf8(line@)) {
            Some(bytes) => r matches Ok(path) && path@ == bytes,
            None => r matches Err(Error::MalformedTmpfilesEntry(l)) && l@ == line@,
        },
{
    let src = line.as_bytes();
    let type_at = skip(src, 0, true);
    let type_end = skip(src, type_at, false);
    if type_end == type_at {
        return Err(Error::MalformedTmpfilesEntry(String::from_str(line)));
    }
    let path_at = skip(src, type_end, true);
    match unescape_path(src, path_at) {
        Ok(path) => Ok(path),
        Err(_) => Err(Error::MalformedTmpfilesEntry(String::from_str(line))),
    }
}

/// A line declares the path it was written for: the path found in the
/// line that [`entry_line`] gives for `path` is `path` in its canonical
/// form. This holds of every path that is not empty and does not begin
/// with a quote, whatever the rest of the line holds.
pub proof fn lemma_entry_declares_path(
    path: Seq<u8>,
    meta: FileMeta,
    user: Seq<char>,
    group: Seq<char>,
)
    requires
        path.len() > 0,
        path[0] != QUOTE,
    ensures
        declared_path(encode_utf8(entry_line(path, meta, user, group))) == Some(
            canonical_path(path),
        ),
{
    let canon = canonical_path(path);
    let esc = escape_bytes(canon);
    let line = entry_line(path, meta, user, group);
    reveal_strlit("d ");
    reveal_strlit("L ");
    reveal_strlit(" ");
    reveal_strlit(" - - - - ");
    let kind: u8 = match meta {
        FileMeta::Directory(_) => 0x64u8,
        FileMeta::Symlink(_) => 0x4cu8,
    };
    let head = seq![kind, SPACE] + esc + seq![SPACE];
    let tail: Seq<char> = match meta {
        FileMeta::Directory(mode) => mode_text(mode) + " "@ + user + " "@ + group + " - -"@,
        FileMeta::Symlink(target) => " - - - - "@.subrange(1, 9) + path_text(target@),
    };
    assert(canon.len() > 0 && canon[0] != QUOTE);
    lemma_escape_front(canon);
    lemma_escape_is_ascii(canon);
    assert(esc.len() > 0);
    assert(esc[0] == escape_byte(canon[0])[0]);
    assert(line =~= text(head) + tail);
    assert(all_ascii(head)) by {
        assert forall|i: int| 0 <= i < head.len() implies head[i] < 0x80 by {
            if 2 <= i < 2 + esc.len() {
                assert(head[i] == esc[i - 2]);
            }
        }
    }
    lemma_text_bytes(head);
    lemma_encode_concat(text(head), tail);
    let src = encode_utf8(line);
    assert(src == head + encode_utf8(tail));
    assert forall|i: int| 0 <= i < head.len() implies src[i] == head[i] by {}
    assert(src[0] == kind && src[1] == SPACE);
    assert(src[2] == esc[0]);
    assert(!whitespace(esc[0]));
    let n = esc.len() as int;
    assert(src[2 + n] == SPACE) by {
        assert(head[2 + n] == SPACE);
    }
    assert(skip_whitespace(src, 0) == 0);
    assert(skip_token(src, 1) == 1);
    assert(skip_token(src, 0) == 1);
    assert(skip_whitespace(src, 2) == 2);
    assert(skip_whitespace(src, 1) == 2);
    assert(src.subrange(2, 2 + n) =~= esc) by {
        assert forall|k: int| 0 <= k < esc.len() implies src[2 + k] == esc[k] by {
            assert(head[2 + k] == esc[k]);
        }
    }
    lemma_unescape_escaped(canon, src, 2);
}

/// A line is one line: it holds no line feed, unless the name of the
/// user or of the group holds one.
pub proof fn lemma_entry_is_one_line(
    path: Seq<u8>,
    meta: FileMeta,
    user: Seq<char>,
    group: Seq<char>,
)
    requires
        !user.contains('\n'),
        !group.contains('\n'),
    ensures
        !entry_line(path, meta, user, group).contains('\n'),
{
    reveal_strlit("d ");
    reveal_strlit("L ");
    reveal_strlit(" ");
    reveal_strlit(" - -");
    reveal_strlit(" - - - - ");
    let line = entry_line(path, meta, user, group);
    let shown = path_text(path);
    assert forall|i: int| 0 <= i < shown.len() implies shown[i] != '\n' by {
        lemma_escape_is_ascii(canonical_path(path));
        assert(!whitespace(escape_bytes(canonical_path(path))[i]));
    }
    if line.contains('\n') {
        let i = choose|i: int| 0 <= i < line.len() && line[i] == '\n';
        match meta {
            FileMeta::Directory(mode) => {
                let digits = zero_padded(numeral(mode as nat, 8), 4);
                lemma_numeral_digits(mode as nat, 8);
                assert forall|k: int| 0 <= k < digits.len() implies 0x30 <= #[trigger] digits[k]
                    <= 0x39 by {}
                let a = "d "@ + shown;
                let b = a + " "@;
                let c = b + mode_text(mode);
                let d = c + " "@;
                let e = d + user;
                let f = e + " "@;
                let g = f + group;
                assert(line == g + " - -"@);
                if i < a.len() {
                    if i >= 2 {
                        assert(line[i] == shown[i - 2]);
                    }
                } else if i < b.len() {
                } else if i < c.len() {
                    assert(line[i] == mode_text(mode)[i - b.len()]);
                    assert(mode_text(mode)[i - b.len()] == digits[i - b.len()] as char);
                } else if i < d.len() {
                } else if i < e.len() {
                    assert(line[i] == user[i - d.len()]);
                } else if i < f.len() {
                } else if i < g.len() {
                    assert(line[i] == group[i - f.len()]);
                }
            },
            FileMeta::Symlink(target) => {
                let aim = path_text(target@);
                assert forall|k: int| 0 <= k < aim.len() implies aim[k] != '\n' by {
                    lemma_escape_is_ascii(canonical_path(target@));
                    assert(!whitespace(escape_bytes(canonical_path(target@))[k]));
                }
                let a = "L "@ + shown;
                let b = a + " - - - - "@;
                assert(line == b + aim);
                if i < a.len() {
                    if i >= 2 {
                        assert(line[i] == shown[i - 2]);
                    }
                } else if i < b.len() {
                } else {
                    assert(line[i] == aim[i - b.len()]);
                }
            },
        }
    }
}

} // verus!
