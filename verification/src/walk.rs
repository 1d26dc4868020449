//! The walk through the tree, as a state machine.
//!
//! The walker decides; its caller acts. Each step hands the caller an
//! [`Action`] to perform on the filesystem, and the caller answers with
//! what it found by calling the method that belongs to the action. The
//! walk goes depth first: an object is declared, then entered if it is a
//! directory on the same filesystem, then removed unless the walk is
//! read-only.
use crate::entry::{can_declare, entry_line, meta_of, translate_to_tmpfiles_d, FileMeta, FsObject};
use crate::error::Error;
use crate::existing::ExistingEntries;
use crate::lines::EntrySet;
use crate::path::{path_key, push_component, pushed};
use crate::text::SLASH;
use vstd::prelude::*;
use vstd::slice::{slice_subrange, slice_to_vec};

verus! {

/// What the walker asks its caller to do next. Paths are relative to the
/// root of the filesystem.
#[derive(Debug, PartialEq, Eq)]
pub enum Action {
    /// List this directory, and report its first entry with
    /// [`Walker::on_entry`], or [`Walker::on_end_of_dir`] if it has none.
    ReadDir(Vec<u8>),
    /// Report the next entry of the directory that is being listed, or
    /// its end.
    NextEntry,
    /// Look at this object without following symbolic links, and report
    /// it with [`Walker::on_inspected`].
    Inspect(Vec<u8>),
    /// Look up the names of this user and this group, and report them
    /// with [`Walker::on_owner`].
    ResolveOwner { uid: u32, gid: u32 },
    /// Try to open this directory without crossing to another
    /// filesystem, and report with [`Walker::on_opened`] whether it is on
    /// the same one.
    OpenDirNoXdev(Vec<u8>),
    /// Remove this directory and all that is left in it, then call
    /// [`Walker::on_removed`].
    RemoveDirAll(Vec<u8>),
    /// Remove this object, which is no directory, then call
    /// [`Walker::on_removed`].
    RemoveFile(Vec<u8>),
    /// The walk is over: take the result with [`Walker::finish`].
    Done,
}

/// What the walker waits for.
#[derive(Debug, Clone, Copy, PartialEq, Eq, Structural)]
pub enum Pending {
    /// The walk has not begun.
    Start,
    /// An entry of the directory that is being listed, or its end.
    Entry,
    /// What the object is.
    Inspection,
    /// The names of the object's owner.
    Owner,
    /// Whether the directory is on the same filesystem.
    Opening,
    /// That the object is gone.
    Removal,
    /// Nothing: the walk is over.
    Finished,
    /// Nothing: the walk has failed.
    Failed,
}

/// What a directory listing tells of an entry besides its name.
#[derive(Debug, Clone, Copy, PartialEq, Eq, Structural)]
pub struct Child {
    pub is_dir: bool,
    pub uid: u32,
    pub gid: u32,
}

/// The outcome of looking up the name of a user or of a group.
#[derive(Debug, PartialEq, Eq)]
pub enum NameLookup {
    /// The id is not known.
    NotFound,
    /// The name.
    Name(String),
    /// The name is not UTF-8; this is a lossy rendering of it.
    NotUtf8(String),
}

/// The entries that a walk has found missing.
#[derive(Debug, PartialEq, Eq)]
pub struct TmpfilesResult {
    /// The lines that declare what was found.
    pub tmpfiles: EntrySet,
    /// The paths that cannot be declared, relative to the root, in the
    /// order in which they were met.
    pub unsupported: Vec<Vec<u8>>,
}

/// The paths held in `paths`, as byte sequences.
pub open spec fn paths_of(paths: Seq<Vec<u8>>) -> Seq<Seq<u8>> {
    Seq::new(paths.len(), |i: int| paths[i]@)
}

/// An [`Action`] as a value of the model: the same, with its path as a
/// sequence of bytes.
pub enum Request {
    ReadDir(Seq<u8>),
    NextEntry,
    Inspect(Seq<u8>),
    ResolveOwner { uid: u32, gid: u32 },
    OpenDirNoXdev(Seq<u8>),
    RemoveDirAll(Seq<u8>),
    RemoveFile(Seq<u8>),
    Done,
}

impl View for Action {
    type V = Request;

    open spec fn view(&self) -> Request {
        match *self {
            Action::ReadDir(path) => Request::ReadDir(path@),
            Action::NextEntry => Request::NextEntry,
            Action::Inspect(path) => Request::Inspect(path@),
            Action::ResolveOwner { uid, gid } => Request::ResolveOwner { uid, gid },
            Action::OpenDirNoXdev(path) => Request::OpenDirNoXdev(path@),
            Action::RemoveDirAll(path) => Request::RemoveDirAll(path@),
            Action::RemoveFile(path) => Request::RemoveFile(path@),
            Action::Done => Request::Done,
        }
    }
}

/// The state of a walk.
pub struct WalkState {
    /// Nothing is removed in a read-only walk.
    pub readonly: bool,
    /// What is declared already.
    pub existing: Map<Seq<u8>, Seq<char>>,
    /// The lines written so far.
    pub entries: Set<Seq<char>>,
    /// The paths found so far that cannot be declared.
    pub unsupported: Seq<Seq<u8>>,
    /// The path of the root of the walk, and below it the paths of the
    /// directories that were entered and of the object that is being
    /// handled.
    pub stack: Seq<Seq<u8>>,
    /// What the walker waits for.
    pub pending: Pending,
    /// The entry that is being handled.
    pub child: Child,
    /// What there is to declare of it.
    pub meta: Option<FileMeta>,
}

/// One step of a walk: the state it leads to, and what it asks for.
pub struct Step {
    pub state: WalkState,
    pub request: Request,
}

/// The path where the walk begins: `/var`.
pub open spec fn walk_root() -> Seq<u8> {
    seq![0x2fu8, 0x76u8, 0x61u8, 0x72u8]
}

/// The state in which a walk begins.
pub open spec fn initial(existing: Map<Seq<u8>, Seq<char>>, readonly: bool) -> WalkState {
    WalkState {
        readonly,
        existing,
        entries: Set::empty(),
        unsupported: Seq::empty(),
        stack: seq![walk_root()],
        pending: Pending::Start,
        child: Child { is_dir: false, uid: 0, gid: 0 },
        meta: None,
    }
}

/// The path as the caller is given it: without the separator in front.
pub open spec fn relative(path: Seq<u8>) -> Seq<u8> {
    path.skip(1)
}

/// The state with the last path taken off the stack, waiting for the
/// next entry of the directory above.
pub open spec fn leave(s: WalkState) -> WalkState {
    WalkState { pending: Pending::Entry, stack: s.stack.drop_last(), ..s }
}

/// The request is for a removal.
pub open spec fn removes(request: Request) -> bool {
    request is RemoveFile || request is RemoveDirAll
}

/// The first step: the root is to be listed.
pub open spec fn after_start(s: WalkState) -> Step {
    Step {
        state: WalkState { pending: Pending::Entry, ..s },
        request: Request::ReadDir(relative(s.stack.last())),
    }
}

/// What becomes of the object that is last on the stack, once it is
/// settled whether it is declared.
///
/// A directory is to be opened. Anything else is to be removed, or left
/// alone in a read-only walk, which goes on with the next entry.
pub open spec fn disposed(s: WalkState) -> Step {
    if s.child.is_dir {
        Step {
            state: WalkState { pending: Pending::Opening, ..s },
            request: Request::OpenDirNoXdev(relative(s.stack.last())),
        }
    } else if s.readonly {
        Step { state: leave(s), request: Request::NextEntry }
    } else {
        Step {
            state: WalkState { pending: Pending::Removal, ..s },
            request: Request::RemoveFile(relative(s.stack.last())),
        }
    }
}

/// The step on an entry of the directory that is being listed.
///
/// The path of the entry goes on the stack. Where the path is declared
/// already nothing is written for it, and the object is disposed of at
/// once; otherwise it is to be inspected.
pub open spec fn after_entry(s: WalkState, name: Seq<u8>, child: Child) -> Step {
    let path = pushed(s.stack.last(), name);
    let seen = WalkState { stack: s.stack.push(path), child, ..s };
    if s.existing.contains_key(path_key(path)) {
        disposed(seen)
    } else {
        Step {
            state: WalkState { pending: Pending::Inspection, ..seen },
            request: Request::Inspect(relative(path)),
        }
    }
}

/// The step on the end of the directory that is being listed.
///
/// At the end of the root the walk is over. A directory below it is
/// left, and removed with all that is still in it unless the walk is
/// read-only.
pub open spec fn after_end_of_dir(s: WalkState) -> Step {
    if s.stack.len() == 1 {
        Step { state: WalkState { pending: Pending::Finished, ..s }, request: Request::Done }
    } else if s.readonly {
        Step { state: leave(s), request: Request::NextEntry }
    } else {
        Step {
            state: WalkState { pending: Pending::Removal, ..s },
            request: Request::RemoveDirAll(relative(s.stack.last())),
        }
    }
}

/// The step on what the object is.
///
/// What is neither a directory nor a symbolic link cannot be declared:
/// its path is recorded, it is left where it is, and the walk goes on
/// with the next entry. For the others the names of the owner are asked
/// for.
pub open spec fn after_inspected(s: WalkState, object: FsObject) -> Step {
    match meta_of(object) {
        None => Step {
            state: leave(
                WalkState { unsupported: s.unsupported.push(relative(s.stack.last())), ..s },
            ),
            request: Request::NextEntry,
        },
        Some(meta) => Step {
            state: WalkState { pending: Pending::Owner, meta: Some(meta), ..s },
            request: Request::ResolveOwner { uid: s.child.uid, gid: s.child.gid },
        },
    }
}

/// The error that the lookup of the owner's names ends in, if any: the
/// user is looked at first, then the group.
pub open spec fn owner_error(child: Child, user: NameLookup, group: NameLookup) -> Option<Error> {
    match user {
        NameLookup::NotFound => Some(Error::UserNotFound(child.uid)),
        NameLookup::NotUtf8(name) => Some(Error::NonUtf8User { uid: child.uid, name }),
        NameLookup::Name(_) => match group {
            NameLookup::NotFound => Some(Error::GroupNotFound(child.gid)),
            NameLookup::NotUtf8(name) => Some(Error::NonUtf8Group { gid: child.gid, name }),
            NameLookup::Name(_) => None,
        },
    }
}

/// The line for the object that is last on the stack, given the names of
/// its owner, or the error that stands in its way: a user or a group
/// that is not known or whose name is not UTF-8, or a symbolic link
/// without a target.
pub open spec fn owner_line(s: WalkState, user: NameLookup, group: NameLookup) -> Result<
    Seq<char>,
    Error,
> {
    let path = s.stack.last();
    let meta = s.meta->Some_0;
    match owner_error(s.child, user, group) {
        Some(e) => Err(e),
        None => if can_declare(path, meta) {
            Ok(entry_line(path, meta, user->Name_0@, group->Name_0@))
        } else {
            Err(Error::Fmt)
        },
    }
}

/// The step on the line of the object that is last on the stack: the
/// line joins the entries, and the object is disposed of.
pub open spec fn after_line(s: WalkState, line: Seq<char>) -> Step {
    disposed(WalkState { entries: s.entries.insert(line), meta: None, ..s })
}

/// The state of a walk that has failed over the owner of an object.
pub open spec fn failed(s: WalkState) -> WalkState {
    WalkState { pending: Pending::Failed, meta: None, ..s }
}

/// The step on whether the directory could be opened on the same
/// filesystem.
///
/// A directory on the same filesystem is entered: it is to be listed. A
/// mount point is left alone: it is neither listed nor removed, nothing
/// is written or recorded, and the walk goes on with the next entry of
/// the directory above.
pub open spec fn after_opened(s: WalkState, same_filesystem: bool) -> Step {
    if same_filesystem {
        Step {
            state: WalkState { pending: Pending::Entry, ..s },
            request: Request::ReadDir(relative(s.stack.last())),
        }
    } else {
        Step { state: leave(s), request: Request::NextEntry }
    }
}

/// The step on a removal that was carried out: the walk goes on with the
/// next entry of the directory above.
pub open spec fn after_removed(s: WalkState) -> Step {
    Step { state: leave(s), request: Request::NextEntry }
}

/// The line declares a path that was not declared before.
pub open spec fn declares_anew(existing: Map<Seq<u8>, Seq<char>>, line: Seq<char>) -> bool {
    exists|path: Seq<u8>, meta: FileMeta, user: Seq<char>, group: Seq<char>|
        line == #[trigger] entry_line(path, meta, user, group) && !existing.contains_key(
            path_key(path),
        )
}

/// Every line declares a path that was not declared before.
pub open spec fn all_anew(existing: Map<Seq<u8>, Seq<char>>, entries: Set<Seq<char>>) -> bool {
    forall|line: Seq<char>| #[trigger] entries.contains(line) ==> declares_anew(existing, line)
}

/// What holds of every state of a walk: the paths of the stack are
/// absolute, no line is written for a path that is declared already, and
/// a read-only walk never waits for a removal.
pub open spec fn holds(s: WalkState) -> bool {
    &&& s.stack.len() >= 1
    &&& all_anew(s.existing, s.entries)
    &&& forall|k: int| 0 <= k < s.stack.len() ==> (#[trigger] s.stack[k]).len() > 0 && s.stack[k][0]
        == SLASH
    &&& (s.pending is Inspection || s.pending is Owner || s.pending is Opening || s.pending is Removal)
        ==> s.stack.len() >= 2
    &&& (s.pending is Inspection || s.pending is Owner) ==> !s.existing.contains_key(
        path_key(s.stack.last()),
    )
    &&& s.pending is Removal ==> !s.readonly
    &&& s.pending is Owner <==> s.meta is Some
}

/// The state, had the walk been begun read-only or not.
pub open spec fn in_mode(s: WalkState, readonly: bool) -> WalkState {
    WalkState { readonly, ..s }
}

/// The step, with the removal that it asks for carried out.
pub open spec fn carried_out(step: Step) -> Step {
    if removes(step.request) {
        after_removed(step.state)
    } else {
        step
    }
}

/// The two steps ask for the same and lead to the same state, but for
/// the mode of the walk.
pub open spec fn alike(a: Step, b: Step) -> bool {
    a.request == b.request && a.state == in_mode(b.state, a.state.readonly)
}

/// A read-only walk takes the steps of a walk that removes, without the
/// removals: from states that differ in the mode alone, every step of
/// the one is like the step of the other once its removal is carried
/// out. So the two walks of one tree write the same entries and record
/// the same paths.
pub proof fn lemma_read_only_walks_alike(
    s: WalkState,
    name: Seq<u8>,
    child: Child,
    object: FsObject,
    line: Seq<char>,
    same_filesystem: bool,
)
    requires
        !s.readonly,
    ensures
        alike(after_start(s), after_start(in_mode(s, true))),
        alike(carried_out(after_entry(s, name, child)), after_entry(in_mode(s, true), name, child)),
        alike(carried_out(after_end_of_dir(s)), after_end_of_dir(in_mode(s, true))),
        alike(after_inspected(s, object), after_inspected(in_mode(s, true), object)),
        alike(carried_out(after_line(s, line)), after_line(in_mode(s, true), line)),
        alike(after_opened(s, same_filesystem), after_opened(in_mode(s, true), same_filesystem)),
        !removes(after_start(in_mode(s, true)).request),
        !removes(after_entry(in_mode(s, true), name, child).request),
        !removes(after_end_of_dir(in_mode(s, true)).request),
        !removes(after_inspected(in_mode(s, true), object).request),
        !removes(after_line(in_mode(s, true), line).request),
        !removes(after_opened(in_mode(s, true), same_filesystem).request),
{
}

/// What is declared is not declared again: an entry whose path is
/// declared already gets no line, is not recorded as unsupported, and is
/// not even inspected.
pub proof fn lemma_declared_gets_no_line(s: WalkState, name: Seq<u8>, child: Child)
    requires
        s.existing.contains_key(path_key(pushed(s.stack.last(), name))),
    ensures
        after_entry(s, name, child).state.entries == s.entries,
        after_entry(s, name, child).state.unsupported == s.unsupported,
        !(after_entry(s, name, child).request is Inspect),
{
}

/// A mount point is left alone: the step on a directory that lies on
/// another filesystem asks neither for its listing nor for its removal,
/// writes and records nothing, and goes back to the directory above.
pub proof fn lemma_mount_point_left_alone(s: WalkState)
    ensures
        after_opened(s, false).request == Request::NextEntry,
        after_opened(s, false).state.entries == s.entries,
        after_opened(s, false).state.unsupported == s.unsupported,
        after_opened(s, false).state.stack == s.stack.drop_last(),
        after_opened(s, false).state.pending == Pending::Entry,
{
}

/// The walker.
pub struct Walker {
    existing: ExistingEntries,
    readonly: bool,
    entries: EntrySet,
    unsupported: Vec<Vec<u8>>,
    /// The last path of the stack.
    prefix: Vec<u8>,
    /// The lengths of the paths of the stack below the last: each is a
    /// prefix of the last.
    lengths: Vec<usize>,
    pending: Pending,
    child: Child,
    meta: Option<FileMeta>,
}

impl View for Walker {
    type V = WalkState;

    closed spec fn view(&self) -> WalkState {
        WalkState {
            readonly: self.readonly,
            existing: self.existing@,
            entries: self.entries.set(),
            unsupported: paths_of(self.unsupported@),
            stack: Seq::new(
                self.lengths@.len() + 1,
                |k: int|
                    if k < self.lengths@.len() {
                        self.prefix@.take(self.lengths@[k] as int)
                    } else {
                        self.prefix@
                    },
            ),
            pending: self.pending,
            child: self.child,
            meta: self.meta,
        }
    }
}

impl Walker {
    /// The fields hold together.
    pub closed spec fn represented(&self) -> bool {
        &&& self.existing.wf()
        &&& self.entries.wf()
        &&& forall|k: int|
            0 <= k < self.lengths@.len() ==> #[trigger] self.lengths@[k] <= self.prefix@.len()
        &&& forall|i: int, j: int|
            0 <= i < j < self.lengths@.len() ==> self.lengths@[i] <= self.lengths@[j]
    }

    pub open spec fn wf(&self) -> bool {
        self.represented() && holds(self@)
    }

    /// A walker at the start of a walk of `/var`.
    pub fn new(existing: ExistingEntries, readonly: bool) -> (r: Walker)
        requires
            existing.wf(),
        ensures
            r.wf(),
            r@ == initial(existing@, readonly),
    {
        let mut prefix: Vec<u8> = Vec::new();
        prefix.push(0x2f);
        prefix.push(0x76);
        prefix.push(0x61);
        prefix.push(0x72);
        let r = Walker {
            existing,
            readonly,
            entries: EntrySet::new(),
            unsupported: Vec::new(),
            prefix,
            lengths: Vec::new(),
            pending: Pending::Start,
            child: Child { is_dir: false, uid: 0, gid: 0 },
            meta: None,
        };
        proof {
            assert(r.prefix@ =~= walk_root());
            assert(r@.stack =~= seq![walk_root()]);
            assert(r@.entries =~= Set::<Seq<char>>::empty());
            assert(r@.unsupported =~= Seq::<Seq<u8>>::empty());
        }
        r
    }

    /// What the walker waits for.
    pub fn pending(&self) -> (r: Pending)
        ensures
            r == self@.pending,
    {
        self.pending
    }

    /// The path of the last object on the stack, relative to the root.
    fn relative_path(&self) -> (r: Vec<u8>)
        requires
            self.wf(),
        ensures
            r@ == relative(self@.stack.last()),
    {
        assert(self@.stack.last() == self.prefix@);
        assert(self@.stack[self@.stack.len() - 1].len() > 0);
        let rest = slice_subrange(self.prefix.as_slice(), 1, self.prefix.len());
        slice_to_vec(rest)
    }

    /// Puts the path of an entry of the last directory on the stack.
    fn enter(&mut self, name: &[u8])
        requires
            old(self).wf(),
        ensures
            final(self).represented(),
            final(self)@ == (WalkState {
                stack: old(self)@.stack.push(pushed(old(self)@.stack.last(), name@)),
                ..old(self)@
            }),
    {
        let ghost before = self@;
        self.lengths.push(self.prefix.len());
        push_component(&mut self.prefix, name);
        proof {
            let dir = old(self).prefix@;
            assert(self.prefix@.take(dir.len() as int) =~= dir);
            assert forall|k: int| 0 <= k < old(self).lengths@.len() implies self.prefix@.take(
                self.lengths@[k] as int,
            ) == dir.take(old(self).lengths@[k] as int) by {
                assert(self.prefix@.take(self.lengths@[k] as int) =~= dir.take(
                    old(self).lengths@[k] as int,
                ));
            }
            assert(self@.stack =~= before.stack.push(pushed(before.stack.last(), name@)));
        }
    }

    /// Takes the last path off the stack and waits for the next entry.
    fn leave(&mut self)
        requires
            old(self).represented(),
            old(self)@.stack.len() >= 2,
        ensures
            final(self).represented(),
            final(self)@ == leave(old(self)@),
    {
        let ghost before = self@;
        let length = self.lengths.pop().unwrap();
        self.prefix.truncate(length);
        self.pending = Pending::Entry;
        proof {
            assert forall|k: int| 0 <= k < self.lengths@.len() implies self.prefix@.take(
                self.lengths@[k] as int,
            ) == old(self).prefix@.take(old(self).lengths@[k] as int) by {
                assert(old(self).lengths@[k] <= old(self).lengths@[old(self).lengths@.len() - 1]);
                assert(self.prefix@.take(self.lengths@[k] as int) =~= old(self).prefix@.take(
                    old(self).lengths@[k] as int,
                ));
            }
            assert(self@.stack =~= before.stack.drop_last());
        }
    }

    /// Decides what becomes of the object whose path is last on the
    /// stack, now that it is settled whether it is declared.
    fn dispose(&mut self) -> (action: Action)
        requires
            old(self).represented(),
            holds(WalkState { pending: Pending::Opening, meta: None, ..old(self)@ }),
            old(self)@.meta is None,
        ensures
            final(self).wf(),
            final(self)@ == disposed(old(self)@).state,
            action@ == disposed(old(self)@).request,
    {
        if self.child.is_dir {
            self.pending = Pending::Opening;
            assert(self@ == WalkState { pending: Pending::Opening, ..old(self)@ });
            Action::OpenDirNoXdev(self.relative_path())
        } else if self.readonly {
            self.leave();
            Action::NextEntry
        } else {
            self.pending = Pending::Removal;
            assert(self@ == WalkState { pending: Pending::Removal, ..old(self)@ });
            Action::RemoveFile(self.relative_path())
        }
    }

    /// Begins the walk: the root is to be listed.
    pub fn start(&mut self) -> (action: Action)
        requires
            old(self).wf(),
            old(self)@.pending is Start,
        ensures
            final(self).wf(),
            final(self)@ == after_start(old(self)@).state,
            action@ == after_start(old(self)@).request,
    {
        self.pending = Pending::Entry;
        Action::ReadDir(self.relative_path())
    }

    /// Takes an entry of the directory that is being listed: its name,
    /// whether it is a directory, and the ids of its owner.
    ///
    /// Its path goes on the stack. Where the path is declared already,
    /// nothing is written for it, and the object is disposed of at once;
    /// otherwise it is to be inspected.
    pub fn on_entry(&mut self, name: &[u8], is_dir: bool, uid: u32, gid: u32) -> (action: Action)
        requires
            old(self).wf(),
            old(self)@.pending is Entry,
        ensures
            final(self).wf(),
            final(self)@ == after_entry(old(self)@, name@, Child { is_dir, uid, gid }).state,
            action@ == after_entry(old(self)@, name@, Child { is_dir, uid, gid }).request,
            old(self)@.readonly ==> !removes(action@),
    {
        self.child = Child { is_dir, uid, gid };
        self.enter(name);
        proof {
            let s = self@;
            assert forall|k: int| 0 <= k < s.stack.len() implies (#[trigger] s.stack[k]).len() > 0
                && s.stack[k][0] == SLASH by {
                if k < old(self)@.stack.len() {
                    assert(s.stack[k] == old(self)@.stack[k]);
                } else {
                    let dir = old(self)@.stack.last();
                    assert(dir.len() > 0 && dir[0] == SLASH);
                }
            }
        }
        if self.existing.contains_key(self.prefix.as_slice()) {
            self.dispose()
        } else {
            self.pending = Pending::Inspection;
            Action::Inspect(self.relative_path())
        }
    }

    /// Takes the end of the directory that is being listed.
    ///
    /// At the end of the root the walk is over. A directory below it is
    /// left, and removed with all that is still in it unless the walk is
    /// read-only.
    pub fn on_end_of_dir(&mut self) -> (action: Action)
        requires
            old(self).wf(),
            old(self)@.pending is Entry,
        ensures
            final(self).wf(),
            final(self)@ == after_end_of_dir(old(self)@).state,
            action@ == after_end_of_dir(old(self)@).request,
            old(self)@.readonly ==> !removes(action@),
    {
        if self.lengths.len() == 0 {
            self.pending = Pending::Finished;
            Action::Done
        } else if self.readonly {
            self.leave();
            Action::NextEntry
        } else {
            self.pending = Pending::Removal;
            Action::RemoveDirAll(self.relative_path())
        }
    }

    /// Takes what the object is.
    ///
    /// What is neither a directory nor a symbolic link cannot be
    /// declared: its path is recorded, it is left where it is, and the
    /// walk goes on with the next entry. For the others the names of the
    /// owner are asked for.
    pub fn on_inspected(&mut self, object: FsObject) -> (action: Action)
        requires
            old(self).wf(),
            old(self)@.pending is Inspection,
        ensures
            final(self).wf(),
            final(self)@ == after_inspected(old(self)@, object).state,
            action@ == after_inspected(old(self)@, object).request,
    {
        match FileMeta::from_fs(object) {
            None => {
                let path = self.relative_path();
                let ghost before = self@;
                self.unsupported.push(path);
                assert(self@ == WalkState {
                    unsupported: before.unsupported.push(relative(before.stack.last())),
                    ..before
                }) by {
                    assert(self@.unsupported =~= before.unsupported.push(
                        relative(before.stack.last()),
                    ));
                }
                self.leave();
                Action::NextEntry
            },
            Some(meta) => {
                self.meta = Some(meta);
                self.pending = Pending::Owner;
                Action::ResolveOwner { uid: self.child.uid, gid: self.child.gid }
            },
        }
    }

    /// Takes the names of the object's owner, and writes its line.
    ///
    /// A user or a group that is not known, or whose name is not UTF-8,
    /// is an error, and so is a symbolic link without a target; the walk
    /// has then failed. Otherwise the line joins the entries and the
    /// object is disposed of. The object is one that was not declared
    /// before.
    pub fn on_owner(&mut self, user: NameLookup, group: NameLookup) -> (r: Result<Action, Error>)
        requires
            old(self).wf(),
            old(self)@.pending is Owner,
        ensures
            final(self).wf(),
            !old(self)@.existing.contains_key(path_key(old(self)@.stack.last())),
            match owner_line(old(self)@, user, group) {
                Ok(line) => {
                    &&& r matches Ok(action)
                    &&& final(self)@ == after_line(old(self)@, line).state
                    &&& action@ == after_line(old(self)@, line).request
                    &&& old(self)@.readonly ==> !removes(action@)
                },
                Err(e) => r == Err::<Action, Error>(e) && final(self)@ == failed(old(self)@),
            },
    {
        let meta = self.meta.take().unwrap();
        self.pending = Pending::Failed;
        let username = match user {
            NameLookup::NotFound => {
                return Err(Error::UserNotFound(self.child.uid));
            },
            NameLookup::NotUtf8(name) => {
                return Err(Error::NonUtf8User { uid: self.child.uid, name });
            },
            NameLookup::Name(name) => name,
        };
        let groupname = match group {
            NameLookup::NotFound => {
                return Err(Error::GroupNotFound(self.child.gid));
            },
            NameLookup::NotUtf8(name) => {
                return Err(Error::NonUtf8Group { gid: self.child.gid, name });
            },
            NameLookup::Name(name) => name,
        };
        assert(self@.stack.last() == self.prefix@);
        let line = match translate_to_tmpfiles_d(
            self.prefix.as_slice(),
            meta,
            username.as_str(),
            groupname.as_str(),
        ) {
            Ok(line) => line,
            Err(e) => {
                return Err(e);
            },
        };
        let ghost before = self@;
        self.entries.insert(line);
        proof {
            let s = old(self)@;
            let written = entry_line(s.stack.last(), meta, username@, groupname@);
            assert(self@.entries == before.entries.insert(written));
            assert forall|l: Seq<char>| #[trigger] self@.entries.contains(l) implies declares_anew(
                s.existing,
                l,
            ) by {
                if l != written {
                    assert(s.entries.contains(l));
                }
            }
            assert(all_anew(self@.existing, self@.entries));
            assert(self@ == WalkState {
                pending: Pending::Failed,
                entries: s.entries.insert(written),
                meta: None,
                ..s
            });
        }
        Ok(self.dispose())
    }

    /// Takes whether the directory could be opened on the same
    /// filesystem.
    ///
    /// A directory on the same filesystem is entered: it is to be
    /// listed. A mount point is left alone: it is neither listed nor
    /// removed, and the walk goes on with the next entry.
    pub fn on_opened(&mut self, same_filesystem: bool) -> (action: Action)
        requires
            old(self).wf(),
            old(self)@.pending is Opening,
        ensures
            final(self).wf(),
            final(self)@ == after_opened(old(self)@, same_filesystem).state,
            action@ == after_opened(old(self)@, same_filesystem).request,
    {
        if same_filesystem {
            self.pending = Pending::Entry;
            Action::ReadDir(self.relative_path())
        } else {
            self.leave();
            Action::NextEntry
        }
    }

    /// Takes that the object is gone: the walk goes on with the next
    /// entry of the directory above.
    pub fn on_removed(&mut self) -> (action: Action)
        requires
            old(self).wf(),
            old(self)@.pending is Removal,
        ensures
            final(self).wf(),
            final(self)@ == after_removed(old(self)@).state,
            action@ == after_removed(old(self)@).request,
    {
        self.leave();
        Action::NextEntry
    }

    /// The outcome of a walk that is over.
    pub fn finish(self) -> (r: TmpfilesResult)
        requires
            self.wf(),
            self@.pending is Finished,
        ensures
            r.tmpfiles.wf(),
            r.tmpfiles.set() == self@.entries,
            paths_of(r.unsupported@) == self@.unsupported,
    {
        TmpfilesResult { tmpfiles: self.entries, unsupported: self.unsupported }
    }
}

} // verus!
