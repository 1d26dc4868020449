//! The files that earlier runs have written: how they are named, how they
//! are counted, and the name of the next one.
use crate::text::{lemma_encode_concat, numeral, push_numeral, text};
use vstd::prelude::*;
use vstd::string::StringExecFns;
use vstd::utf8::encode_utf8;

verus! {

/// The directory of `tmpfiles.d` files, relative to the root.
pub const TMPFILESD: &'static str = "usr/lib/tmpfiles.d";

/// The name of every generated file begins with this.
pub const BOOTC_GENERATED_PREFIX: &'static str = "bootc-autogenerated-var";

/// `bytes` begins with `prefix`.
pub open spec fn begins_with(bytes: Seq<u8>, prefix: Seq<u8>) -> bool {
    prefix.len() <= bytes.len() && bytes.take(prefix.len() as int) == prefix
}

/// `bytes` ends with `suffix`.
pub open spec fn ends_with(bytes: Seq<u8>, suffix: Seq<u8>) -> bool {
    suffix.len() <= bytes.len() && bytes.skip(bytes.len() - suffix.len()) == suffix
}

/// The bytes of `.conf`, which every configuration file's name ends in.
pub open spec fn conf_suffix() -> Seq<u8> {
    encode_utf8(".conf"@)
}

/// The name is that of a configuration file: it ends in `.conf`.
pub open spec fn conf_name(name: Seq<u8>) -> bool {
    ends_with(name, conf_suffix())
}

/// The stem of a configuration file's name: the name without `.conf`.
pub open spec fn stem(name: Seq<u8>) -> Seq<u8> {
    name.take(name.len() - conf_suffix().len())
}

/// The name is that of a generated file: a configuration file whose stem
/// begins with the reserved prefix.
pub open spec fn generated_name(name: Seq<u8>) -> bool {
    conf_name(name) && begins_with(stem(name), encode_utf8(BOOTC_GENERATED_PREFIX@))
}

fn has_prefix(bytes: &[u8], prefix: &[u8]) -> (r: bool)
    ensures
        r == begins_with(bytes@, prefix@),
{
    if prefix.len() > bytes.len() {
        return false;
    }
    let mut i: usize = 0;
    while i < prefix.len()
        invariant
            i <= prefix@.len() <= bytes@.len(),
            bytes@.take(i as int) == prefix@.take(i as int),
        decreases prefix@.len() - i,
    {
        if bytes[i] != prefix[i] {
            assert(bytes@.take(prefix@.len() as int)[i as int] != prefix@[i as int]);
            return false;
        }
        assert(bytes@.take(i + 1) =~= bytes@.take(i as int).push(bytes@[i as int]));
        assert(prefix@.take(i + 1) =~= prefix@.take(i as int).push(prefix@[i as int]));
        i = i + 1;
    }
    assert(prefix@.take(i as int) =~= prefix@);
    true
}

/// Tells whether a file of the directory is a configuration file.
pub fn is_conf_name(name: &[u8]) -> (r: bool)
    ensures
        r == conf_name(name@),
{
    let suffix = ".conf".as_bytes();
    if suffix.len() > name.len() {
        return false;
    }
    let tail = vstd::slice::slice_subrange(name, name.len() - suffix.len(), name.len());
    assert(tail@ =~= name@.skip(name@.len() - suffix@.len()));
    let r = has_prefix(tail, suffix);
    assert(tail@.take(suffix@.len() as int) =~= tail@);
    r
}

/// Tells whether a file of the directory was generated by an earlier run.
pub fn is_generated_name(name: &[u8]) -> (r: bool)
    ensures
        r == generated_name(name@),
{
    if !is_conf_name(name) {
        return false;
    }
    let suffix = ".conf".as_bytes();
    let front = vstd::slice::slice_subrange(name, 0, name.len() - suffix.len());
    assert(front@ =~= stem(name@));
    has_prefix(front, BOOTC_GENERATED_PREFIX.as_bytes())
}

/// The number of files that earlier runs have generated.
#[derive(Debug, Clone, Copy, PartialEq, Eq, Structural)]
pub struct BootcTmpfilesGeneration(pub u32);

impl Default for BootcTmpfilesGeneration {
    fn default() -> (r: Self)
        ensures
            r.0 == 0,
    {
        BootcTmpfilesGeneration(0)
    }
}

/// The name of the file of generation `n`: the reserved prefix, a dash,
/// `n` in decimal and `.conf`.
pub open spec fn generation_name(n: u32) -> Seq<char> {
    BOOTC_GENERATED_PREFIX@ + "-"@ + text(numeral(n as nat, 10)) + ".conf"@
}

/// The path of the file of generation `n`, relative to the root: its
/// name, in the `tmpfiles.d` directory.
pub open spec fn generation_path(n: u32) -> Seq<char> {
    TMPFILESD@ + "/"@ + generation_name(n)
}

/// A file that one run writes is counted by the next: the name of every
/// generation is the name of a generated file.
pub proof fn lemma_generation_is_counted(n: u32)
    ensures
        generated_name(encode_utf8(generation_name(n))),
{
    let prefix = BOOTC_GENERATED_PREFIX@;
    let middle = "-"@ + text(numeral(n as nat, 10));
    let suffix = ".conf"@;
    let name = generation_name(n);
    assert(name =~= prefix + (middle + suffix));
    assert(name =~= (prefix + middle) + suffix);
    lemma_encode_concat(prefix, middle + suffix);
    lemma_encode_concat(prefix + middle, suffix);
    let bytes = encode_utf8(name);
    let head = encode_utf8(prefix);
    let front = encode_utf8(prefix + middle);
    let tail = encode_utf8(suffix);
    assert(bytes.skip(bytes.len() - tail.len()) =~= tail);
    assert(stem(bytes) =~= front);
    lemma_encode_concat(prefix, middle);
    assert(front.take(head.len() as int) =~= head);
}

impl BootcTmpfilesGeneration {
    /// Counts one more generated file.
    pub fn increment(&mut self)
        requires
            old(self).0 < u32::MAX,
        ensures
            final(self).0 == old(self).0 + 1,
    {
        self.0 = self.0 + 1;
    }

    /// The name of the file that the next run writes.
    pub fn path(&self) -> (r: String)
        ensures
            r@ == generation_path(self.0),
    {
        let mut r = String::from_str(TMPFILESD);
        r.append("/");
        r.append(BOOTC_GENERATED_PREFIX);
        r.append("-");
        push_numeral(&mut r, self.0 as u64, 10);
        r.append(".conf");
        assert(r@ =~= generation_path(self.0));
        r
    }
}

} // verus!
