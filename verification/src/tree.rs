//! The walk of a whole tree: what the steps of the walker add up to when
//! its caller answers each request with what a given tree holds.
use crate::entry::{entry_line, meta_of, FsObject};
use crate::path::{path_key, pushed};
use crate::walk::{
    after_end_of_dir, after_entry, after_inspected, after_line, after_opened, after_start,
    carried_out, failed, initial, leave, owner_line, relative, walk_root, Child, NameLookup, Step,
    WalkState,
};
use vstd::prelude::*;

verus! {

/// An object of a tree, with all that a walk can ask about it.
pub struct Node {
    /// Its name in the directory that holds it.
    pub name: Seq<u8>,
    /// What the listing of that directory tells of it.
    pub child: Child,
    /// What an inspection finds it to be.
    pub object: FsObject,
    /// What the lookup of its owner finds.
    pub user: NameLookup,
    pub group: NameLookup,
    /// Whether it lies on the filesystem of the directory that holds it.
    pub same_filesystem: bool,
    /// What it holds, if it is a directory, in the order of its listing.
    pub children: Seq<Node>,
}

/// The visit of a node up to the step that disposes of it, or the state
/// in which the visit ends without such a step: with the node recorded as
/// unsupported, or with the walk failed.
pub open spec fn met(s: WalkState, node: Node) -> Result<Step, WalkState> {
    let seen = after_entry(s, node.name, node.child);
    if !(seen.request is Inspect) {
        Ok(seen)
    } else {
        let known = after_inspected(seen.state, node.object);
        if !(known.request is ResolveOwner) {
            Err(known.state)
        } else {
            match owner_line(known.state, node.user, node.group) {
                Ok(line) => Ok(after_line(known.state, line)),
                Err(_) => Err(failed(known.state)),
            }
        }
    }
}

/// The state after the visit of one node: after all the steps that the
/// walker takes on it and on what lies below it, every request answered
/// from the tree and every removal carried out.
pub open spec fn visited(s: WalkState, node: Node) -> WalkState
    decreases node,
{
    match met(s, node) {
        Err(end) => end,
        Ok(step) => if step.request is OpenDirNoXdev {
            let opened = after_opened(step.state, node.same_filesystem);
            if node.same_filesystem {
                let inside = walked(opened.state, node.children);
                if inside.pending is Failed {
                    inside
                } else {
                    carried_out(after_end_of_dir(inside)).state
                }
            } else {
                opened.state
            }
        } else {
            carried_out(step).state
        },
    }
}

/// The state after the visit of the nodes of a directory, one after the
/// other, up to the first on which the walk fails.
pub open spec fn walked(s: WalkState, nodes: Seq<Node>) -> WalkState
    decreases nodes,
{
    if nodes.len() == 0 || s.pending is Failed {
        s
    } else {
        walked(visited(s, nodes[0]), nodes.drop_first())
    }
}

/// The state after the walk of a whole tree, given what `/var` holds.
pub open spec fn walked_tree(
    existing: Map<Seq<u8>, Seq<char>>,
    readonly: bool,
    nodes: Seq<Node>,
) -> WalkState {
    let inside = walked(after_start(initial(existing, readonly)).state, nodes);
    if inside.pending is Failed {
        inside
    } else {
        after_end_of_dir(inside).state
    }
}

/// Whether a walk goes into the node at `path`: it does where the node
/// is listed as a directory on the same filesystem, unless it cannot be
/// declared and is not declared either.
pub open spec fn entered(existing: Map<Seq<u8>, Seq<char>>, path: Seq<u8>, node: Node) -> bool {
    &&& node.child.is_dir
    &&& node.same_filesystem
    &&& existing.contains_key(path_key(path)) || meta_of(node.object) is Some
}

/// The lines that declare the node in the directory `dir` and what lies
/// below it: its own line, unless it is declared already or cannot be
/// declared, and the lines of what it holds, if the walk goes into it.
pub open spec fn lines_of(existing: Map<Seq<u8>, Seq<char>>, dir: Seq<u8>, node: Node) -> Set<
    Seq<char>,
>
    decreases node,
{
    let path = pushed(dir, node.name);
    let own = if existing.contains_key(path_key(path)) {
        Set::empty()
    } else {
        match meta_of(node.object) {
            Some(meta) => set![entry_line(path, meta, node.user->Name_0@, node.group->Name_0@)],
            None => Set::empty(),
        }
    };
    if entered(existing, path, node) {
        own.union(lines_below(existing, path, node.children))
    } else {
        own
    }
}

/// The lines that declare the given nodes of the directory `dir` and
/// what lies below them.
pub open spec fn lines_below(
    existing: Map<Seq<u8>, Seq<char>>,
    dir: Seq<u8>,
    nodes: Seq<Node>,
) -> Set<Seq<char>>
    decreases nodes,
{
    if nodes.len() == 0 {
        Set::empty()
    } else {
        lines_of(existing, dir, nodes[0]).union(lines_below(existing, dir, nodes.drop_first()))
    }
}

/// The paths, relative to the root, of what cannot be declared among the
/// node in the directory `dir` and what lies below it, in the order of
/// the walk.
pub open spec fn skipped_of(existing: Map<Seq<u8>, Seq<char>>, dir: Seq<u8>, node: Node) -> Seq<
    Seq<u8>,
>
    decreases node,
{
    let path = pushed(dir, node.name);
    if !existing.contains_key(path_key(path)) && meta_of(node.object) is None {
        seq![relative(path)]
    } else if entered(existing, path, node) {
        skipped_below(existing, path, node.children)
    } else {
        Seq::empty()
    }
}

/// The paths of what cannot be declared among the given nodes of the
/// directory `dir` and what lies below them, in the order of the walk.
pub open spec fn skipped_below(
    existing: Map<Seq<u8>, Seq<char>>,
    dir: Seq<u8>,
    nodes: Seq<Node>,
) -> Seq<Seq<u8>>
    decreases nodes,
{
    if nodes.len() == 0 {
        Seq::empty()
    } else {
        skipped_of(existing, dir, nodes[0]) + skipped_below(existing, dir, nodes.drop_first())
    }
}

/// The state `t` is the state `s` with these lines and these paths more,
/// waiting for the next entry of the same directory.
pub open spec fn grown(s: WalkState, t: WalkState, lines: Set<Seq<char>>, skipped: Seq<Seq<u8>>) -> bool {
    &&& t.pending is Entry
    &&& t.meta is None
    &&& t.stack == s.stack
    &&& t.existing == s.existing
    &&& t.readonly == s.readonly
    &&& t.entries == s.entries.union(lines)
    &&& t.unsupported == s.unsupported + skipped
}

/// A state in which the walker waits for an entry of a directory.
pub open spec fn listing(s: WalkState) -> bool {
    s.pending is Entry && s.meta is None && s.stack.len() >= 1
}

/// The visit of a node, unless the walk fails on it, leaves the walker
/// where it was, in the directory that holds the node, with the lines
/// and the paths of the node and of what lies below it added.
pub proof fn lemma_visited(s: WalkState, node: Node)
    requires
        listing(s),
    ensures
        visited(s, node).pending is Failed || grown(
            s,
            visited(s, node),
            lines_of(s.existing, s.stack.last(), node),
            skipped_of(s.existing, s.stack.last(), node),
        ),
    decreases node,
{
    let dir = s.stack.last();
    let path = pushed(dir, node.name);
    let lines = lines_of(s.existing, dir, node);
    let skipped = skipped_of(s.existing, dir, node);
    let seen = after_entry(s, node.name, node.child);
    let t = visited(s, node);
    assert(s.stack.push(path).drop_last() =~= s.stack);
    match met(s, node) {
        Err(end) => {
            if !(end.pending is Failed) {
                assert(t.entries =~= s.entries.union(lines));
                assert(t.unsupported =~= s.unsupported + skipped);
            }
        },
        Ok(step) => {
            assert(step.state.unsupported == s.unsupported);
            if step.request is OpenDirNoXdev && node.same_filesystem {
                let opened = after_opened(step.state, true);
                assert(step.state.stack == s.stack.push(path));
                assert(entered(s.existing, path, node));
                lemma_walked(opened.state, node.children);
                let inside = walked(opened.state, node.children);
                if !(inside.pending is Failed) {
                    assert(inside.stack.len() >= 2);
                    assert(t == leave(inside));
                    assert(t.entries =~= s.entries.union(lines));
                    assert(t.unsupported =~= s.unsupported + skipped);
                }
            } else {
                assert(!entered(s.existing, path, node));
                assert(t.entries =~= s.entries.union(lines));
                assert(t.unsupported =~= s.unsupported + skipped);
            }
        },
    }
}

/// The walk of the nodes of a directory, unless it fails, leaves the
/// walker in that directory, with the lines and the paths of the nodes
/// and of what lies below them added.
pub proof fn lemma_walked(s: WalkState, nodes: Seq<Node>)
    requires
        listing(s),
    ensures
        walked(s, nodes).pending is Failed || grown(
            s,
            walked(s, nodes),
            lines_below(s.existing, s.stack.last(), nodes),
            skipped_below(s.existing, s.stack.last(), nodes),
        ),
    decreases nodes,
{
    let dir = s.stack.last();
    if nodes.len() == 0 {
        assert(s.entries.union(Set::empty()) =~= s.entries);
        assert(s.unsupported + Seq::<Seq<u8>>::empty() =~= s.unsupported);
    } else {
        lemma_visited(s, nodes[0]);
        let first = visited(s, nodes[0]);
        if !(first.pending is Failed) {
            lemma_walked(first, nodes.drop_first());
            let t = walked(s, nodes);
            if !(t.pending is Failed) {
                assert(t.entries =~= s.entries.union(lines_below(s.existing, dir, nodes)));
                assert(t.unsupported =~= s.unsupported + skipped_below(s.existing, dir, nodes));
            }
        } else {
            lemma_failed_stays(first, nodes.drop_first());
        }
    }
}

/// A walk that has failed goes no further.
pub proof fn lemma_failed_stays(s: WalkState, nodes: Seq<Node>)
    requires
        s.pending is Failed,
    ensures
        walked(s, nodes) == s,
{
}

/// What a walk finds is what the tree holds: the walk of a whole tree,
/// unless it fails, ends with the lines of all that lies below `/var`
/// and is neither declared, nor unsupported, nor behind a mount point or
/// an unsupported object, and with the paths of what is unsupported.
/// This is so whether the walk is read-only or not: the two find the
/// same.
pub proof fn lemma_walked_tree(
    existing: Map<Seq<u8>, Seq<char>>,
    readonly: bool,
    nodes: Seq<Node>,
)
    ensures
        ({
            let end = walked_tree(existing, readonly, nodes);
            end.pending is Failed || {
                &&& end.pending is Finished
                &&& end.entries == lines_below(existing, walk_root(), nodes)
                &&& end.unsupported == skipped_below(existing, walk_root(), nodes)
            }
        }),
{
    let s = after_start(initial(existing, readonly)).state;
    lemma_walked(s, nodes);
    let inside = walked(s, nodes);
    if !(inside.pending is Failed) {
        assert(s.stack.last() == walk_root());
        assert(inside.entries =~= lines_below(existing, walk_root(), nodes));
        assert(inside.unsupported =~= skipped_below(existing, walk_root(), nodes));
    }
}

/// Every node among `nodes`, and every node below one of them that a
/// walk goes into, is declared already.
pub open spec fn all_declared(
    existing: Map<Seq<u8>, Seq<char>>,
    dir: Seq<u8>,
    nodes: Seq<Node>,
) -> bool
    decreases nodes,
{
    nodes.len() == 0 || {
        let path = pushed(dir, nodes[0].name);
        &&& existing.contains_key(path_key(path))
        &&& entered(existing, path, nodes[0]) ==> all_declared(existing, path, nodes[0].children)
        &&& all_declared(existing, dir, nodes.drop_first())
    }
}

/// Where all is declared nothing is found: the walk of a tree whose
/// objects are all declared already writes no line and records no path.
pub proof fn lemma_declared_tree_gives_nothing(
    existing: Map<Seq<u8>, Seq<char>>,
    dir: Seq<u8>,
    nodes: Seq<Node>,
)
    requires
        all_declared(existing, dir, nodes),
    ensures
        lines_below(existing, dir, nodes) == Set::<Seq<char>>::empty(),
        skipped_below(existing, dir, nodes) == Seq::<Seq<u8>>::empty(),
    decreases nodes,
{
    if nodes.len() > 0 {
        let path = pushed(dir, nodes[0].name);
        if entered(existing, path, nodes[0]) {
            lemma_declared_tree_gives_nothing(existing, path, nodes[0].children);
        }
        lemma_declared_tree_gives_nothing(existing, dir, nodes.drop_first());
        assert(existing.contains_key(path_key(path)));
        assert(lines_of(existing, dir, nodes[0]) =~= Set::<Seq<char>>::empty());
        assert(skipped_of(existing, dir, nodes[0]) =~= Seq::<Seq<u8>>::empty());
        assert(lines_below(existing, dir, nodes) =~= Set::<Seq<char>>::empty());
        assert(skipped_below(existing, dir, nodes) =~= Seq::<Seq<u8>>::empty());
    }
}

/// A mount point stands for itself alone: of a node on another
/// filesystem a walk writes at most the node's own line, and neither
/// writes nor records anything of what the node holds.
pub proof fn lemma_mount_point_stands_alone(
    existing: Map<Seq<u8>, Seq<char>>,
    dir: Seq<u8>,
    node: Node,
)
    requires
        !node.same_filesystem,
    ensures
        lines_of(existing, dir, node) == lines_of(
            existing,
            dir,
            Node { children: Seq::empty(), ..node },
        ),
        skipped_of(existing, dir, node) == skipped_of(
            existing,
            dir,
            Node { children: Seq::empty(), ..node },
        ),
        lines_of(existing, dir, node).len() <= 1,
        existing.contains_key(path_key(pushed(dir, node.name))) ==> lines_of(existing, dir, node)
            == Set::<Seq<char>>::empty(),
{
}

} // verus!
