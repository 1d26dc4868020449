//! What frames a run: the conditions it begins under, the file it writes
//! and the summary it ends with.
use crate::error::Error;
use crate::generation::{generation_path, BootcTmpfilesGeneration};
use crate::lines::EntrySet;
use crate::text::{numeral, push_numeral, text};
use crate::walk::TmpfilesResult;
use vstd::prelude::*;
use vstd::string::StringExecFns;

verus! {

/// How many of the paths that were skipped are named in the file.
pub const MAX_SAMPLES: usize = 5;

/// The summary of a run.
#[derive(Debug, PartialEq, Eq)]
pub struct TmpfilesWrittenResult {
    /// Where lines were written: how many, and the name of the file,
    /// relative to the root.
    pub generated: Option<(usize, String)>,
    /// How many objects were skipped because they cannot be declared.
    pub unsupported: usize,
}

impl Default for TmpfilesWrittenResult {
    fn default() -> (r: Self)
        ensures
            r.generated is None,
            r.unsupported == 0,
    {
        TmpfilesWrittenResult { generated: None, unsupported: 0 }
    }
}

/// Checks `/var/run`, given whether it exists and, if so, whether it is a
/// symbolic link: there it must be one.
pub fn check_var_run(is_symlink: Option<bool>) -> (r: Result<(), Error>)
    ensures
        is_symlink == Some(false) ==> r == Err::<(), Error>(Error::FoundVarRunNonSymlink),
        is_symlink != Some(false) ==> r is Ok,
{
    match is_symlink {
        Some(false) => Err(Error::FoundVarRunNonSymlink),
        _ => Ok(()),
    }
}

/// Checks the `tmpfiles.d` directory, given whether it exists: it must.
pub fn check_tmpfiles_dir(exists: bool) -> (r: Result<(), Error>)
    ensures
        !exists ==> r == Err::<(), Error>(Error::MissingTmpfilesDir),
        exists ==> r is Ok,
{
    if exists {
        Ok(())
    } else {
        Err(Error::MissingTmpfilesDir)
    }
}

/// The summary of a run that found `result` after `generation` earlier
/// ones.
///
/// Without entries nothing is written, and the summary says no more than
/// that. With entries it gives their number, the name of the file for
/// them and the number of paths that were skipped.
pub fn summarize(result: &TmpfilesResult, generation: &BootcTmpfilesGeneration) -> (r:
    TmpfilesWrittenResult)
    ensures
        result.tmpfiles@.len() == 0 ==> r.generated is None && r.unsupported == 0,
        result.tmpfiles@.len() > 0 ==> (r.generated matches Some((count, path)) && count
            == result.tmpfiles@.len() && path@ == generation_path(generation.0)) && r.unsupported
            == result.unsupported@.len(),
{
    if result.tmpfiles.is_empty() {
        TmpfilesWrittenResult::default()
    } else {
        TmpfilesWrittenResult {
            generated: Some((result.tmpfiles.len(), generation.path())),
            unsupported: result.unsupported.len(),
        }
    }
}

/// The given lines in a row, each with a line feed behind it.
pub open spec fn joined_lines(lines: Seq<Seq<char>>) -> Seq<char>
    decreases lines.len(),
{
    if lines.len() == 0 {
        Seq::empty()
    } else {
        joined_lines(lines.drop_last()) + lines.last() + "\n"@
    }
}

/// The comment that names something that was skipped.
pub open spec fn ignored_line(what: Seq<char>) -> Seq<char> {
    "# bootc ignored: "@ + what
}

/// The comment that tells how many more were skipped.
pub open spec fn more_line(count: nat) -> Seq<char> {
    ignored_line("...and "@ + text(numeral(count, 10)) + " more"@)
}

/// The comments on what was skipped: one for each of the first
/// [`MAX_SAMPLES`] paths, and one more that counts the rest, if there is
/// a rest. `ignored` holds the paths as they are to be shown.
pub open spec fn ignored_lines(ignored: Seq<Seq<char>>) -> Seq<Seq<char>> {
    if ignored.len() <= MAX_SAMPLES {
        ignored.map_values(|what: Seq<char>| ignored_line(what))
    } else {
        ignored.take(MAX_SAMPLES as int).map_values(|what: Seq<char>| ignored_line(what)).push(
            more_line((ignored.len() - MAX_SAMPLES) as nat),
        )
    }
}

/// The text of the generated file: the entries in their order, then the
/// comments on what was skipped.
pub open spec fn rendered(entries: Seq<Seq<char>>, ignored: Seq<Seq<char>>) -> Seq<char> {
    joined_lines(entries + ignored_lines(ignored))
}

/// The texts held in `texts`.
pub open spec fn texts_of(texts: Seq<String>) -> Seq<Seq<char>> {
    Seq::new(texts.len(), |i: int| texts[i]@)
}

/// Writes the text of the generated file.
///
/// `ignored` holds, for each path that was skipped, the text that is to
/// stand for it in a comment.
pub fn render_tmpfiles(entries: &EntrySet, ignored: &Vec<String>) -> (r: String)
    ensures
        r@ == rendered(entries@, texts_of(ignored@)),
{
    let mut out = String::new();
    let ghost mut written: Seq<Seq<char>> = Seq::empty();
    let ghost shown = texts_of(ignored@);
    let mut i: usize = 0;
    while i < entries.len()
        invariant
            i <= entries@.len(),
            written == entries@.take(i as int),
            out@ == joined_lines(written),
        decreases entries@.len() - i,
    {
        let line = entries.get(i);
        out.append(line.as_str());
        out.append("\n");
        proof {
            let next = written.push(line@);
            assert(next.drop_last() =~= written);
            assert(next =~= entries@.take(i + 1));
            written = next;
        }
        i = i + 1;
    }
    assert(entries@.take(i as int) =~= entries@);
    let samples = if ignored.len() <= MAX_SAMPLES {
        ignored.len()
    } else {
        MAX_SAMPLES
    };
    let ghost comments = shown.take(samples as int).map_values(|what: Seq<char>| ignored_line(what));
    let mut k: usize = 0;
    while k < samples
        invariant
            k <= samples <= ignored@.len(),
            shown == texts_of(ignored@),
            comments == shown.take(samples as int).map_values(|what: Seq<char>| ignored_line(what)),
            written == entries@ + comments.take(k as int),
            out@ == joined_lines(written),
        decreases samples - k,
    {
        out.append("# bootc ignored: ");
        out.append(ignored[k].as_str());
        out.append("\n");
        proof {
            let comment = ignored_line(ignored@[k as int]@);
            assert(comments[k as int] == comment);
            let next = written.push(comment);
            assert(next.drop_last() =~= written);
            assert(next =~= entries@ + comments.take(k + 1));
            assert(out@ =~= joined_lines(written) + comment + "\n"@);
            written = next;
        }
        k = k + 1;
    }
    assert(comments.take(k as int) =~= comments);
    if ignored.len() > MAX_SAMPLES {
        let more = ignored.len() - MAX_SAMPLES;
        out.append("# bootc ignored: ");
        out.append("...and ");
        push_numeral(&mut out, more as u64, 10);
        out.append(" more");
        out.append("\n");
        proof {
            let comment = more_line(more as nat);
            let next = written.push(comment);
            assert(next.drop_last() =~= written);
            assert(out@ =~= joined_lines(written) + comment + "\n"@);
            assert(next =~= entries@ + ignored_lines(shown));
            written = next;
        }
    } else {
        assert(shown.take(samples as int) =~= shown);
    }
    out
}

} // verus!
