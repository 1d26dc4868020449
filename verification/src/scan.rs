//! The scan of the `tmpfiles.d` directory: which files are read, which
//! are counted, and what their lines declare.
use crate::entry::{declared_path, tmpfiles_entry_get_path};
use crate::error::Error;
use crate::existing::ExistingEntries;
use crate::generation::{
    conf_name, generated_name, is_conf_name, is_generated_name, BootcTmpfilesGeneration,
};
use crate::path::path_key;
use vstd::prelude::*;
use vstd::string::StrSliceExecFns;
use vstd::string::StringExecFns;
use vstd::utf8::encode_utf8;

verus! {

/// Whether a line of a `tmpfiles.d` file declares nothing: it is empty,
/// or a comment.
pub open spec fn declares_nothing(line: Seq<char>) -> bool {
    line.len() == 0 || line[0] == '#'
}

/// What a scan of the `tmpfiles.d` directory has found: the paths that
/// are declared, and how many files earlier runs have generated.
#[derive(Debug, PartialEq, Eq)]
pub struct TmpfilesScan {
    pub existing: ExistingEntries,
    pub generation: BootcTmpfilesGeneration,
}

impl TmpfilesScan {
    pub open spec fn wf(&self) -> bool {
        self.existing.wf()
    }

    /// What is known before any file was seen, and all that is known
    /// where the directory does not exist: nothing is declared, and no
    /// file was generated.
    pub fn new() -> (r: TmpfilesScan)
        ensures
            r.wf(),
            r.existing@ == Map::<Seq<u8>, Seq<char>>::empty(),
            r.generation.0 == 0,
    {
        TmpfilesScan { existing: ExistingEntries::new(), generation: BootcTmpfilesGeneration(0) }
    }

    /// Takes note of a file of the directory, and tells whether its lines
    /// are to be read: those of a configuration file are. A generated
    /// file is counted.
    pub fn note_file(&mut self, name: &[u8]) -> (read: bool)
        requires
            old(self).wf(),
            generated_name(name@) ==> old(self).generation.0 < u32::MAX,
        ensures
            final(self).wf(),
            read == conf_name(name@),
            final(self).existing == old(self).existing,
            final(self).generation.0 == old(self).generation.0 + if generated_name(name@) {
                1int
            } else {
                0int
            },
    {
        if !is_conf_name(name) {
            return false;
        }
        if is_generated_name(name) {
            self.generation.increment();
        }
        true
    }

    /// Takes note of one line of a configuration file: of the path it
    /// declares, unless it is empty or a comment. A line that is
    /// malformed is an error, and nothing is recorded of it.
    pub fn note_line(&mut self, line: &str) -> (r: Result<(), Error>)
        requires
            old(self).wf(),
        ensures
            final(self).wf(),
            final(self).generation == old(self).generation,
            declares_nothing(line@) ==> r is Ok && final(self).existing@ == old(self).existing@,
            !declares_nothing(line@) ==> match declared_path(encode_utf8(line@)) {
                Some(path) => r is Ok && final(self).existing@ == old(self).existing@.insert(
                    path_key(path),
                    line@,
                ),
                None => (r matches Err(Error::MalformedTmpfilesEntry(l)) && l@ == line@)
                    && final(self).existing@ == old(self).existing@,
            },
    {
        if line.is_empty() || line.get_char(0) == '#' {
            return Ok(());
        }
        match tmpfiles_entry_get_path(line) {
            Ok(path) => {
                self.existing.insert(path.as_slice(), String::from_str(line));
                Ok(())
            },
            Err(e) => Err(e),
        }
    }
}

} // verus!
