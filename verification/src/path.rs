//! Paths as bytes: their components, and the key under which two
//! spellings of one path are the same.
use crate::text::{DOT, SLASH};
use vstd::prelude::*;

verus! {

/// The place where the component that starts at `from` ends: the next
/// separator, or the end of the path.
pub open spec fn component_end(path: Seq<u8>, from: int) -> int
    decreases path.len() - from,
{
    if 0 <= from < path.len() && path[from] != SLASH {
        component_end(path, from + 1)
    } else {
        from
    }
}

/// The components of `path` from `from` on: the runs of bytes between
/// separators, without the empty ones and without those that are `.`.
pub open spec fn components_from(path: Seq<u8>, from: int) -> Seq<Seq<u8>>
    decreases path.len() - from,
    via components_from_decreases
{
    if from < 0 || from >= path.len() {
        Seq::empty()
    } else if path[from] == SLASH {
        components_from(path, from + 1)
    } else {
        let end = component_end(path, from);
        let component = path.subrange(from, end);
        if component == seq![DOT] {
            components_from(path, end)
        } else {
            seq![component] + components_from(path, end)
        }
    }
}

#[via_fn]
proof fn components_from_decreases(path: Seq<u8>, from: int) {
    if 0 <= from < path.len() && path[from] != SLASH {
        lemma_component_end(path, from + 1);
    }
}

/// A component ends at or behind the place where it starts, within the
/// path, and holds no separator.
pub proof fn lemma_component_end(path: Seq<u8>, from: int)
    requires
        0 <= from <= path.len(),
    ensures
        from <= component_end(path, from) <= path.len(),
        forall|i: int| from <= i < component_end(path, from) ==> path[i] != SLASH,
        component_end(path, from) < path.len() ==> path[component_end(path, from)] == SLASH,
    decreases path.len() - from,
{
    if from < path.len() && path[from] != SLASH {
        lemma_component_end(path, from + 1);
    }
}

/// The path begins at the root.
pub open spec fn rooted(path: Seq<u8>) -> bool {
    path.len() > 0 && path[0] == SLASH
}

/// What stands before the components: `/` for a path from the root, `.`
/// for a relative path that begins with the component `.`, else nothing.
pub open spec fn lead(path: Seq<u8>) -> Seq<u8> {
    if rooted(path) {
        seq![SLASH]
    } else if path.len() > 0 && path[0] == DOT && (path.len() == 1 || path[1] == SLASH) {
        seq![DOT]
    } else {
        Seq::empty()
    }
}

/// `path` with one more component behind it, and a separator between the
/// two where `path` does not end in one.
pub open spec fn pushed(path: Seq<u8>, component: Seq<u8>) -> Seq<u8> {
    if path.len() == 0 || path.last() == SLASH {
        path + component
    } else {
        path + seq![SLASH] + component
    }
}

/// The path that begins with `lead` and goes on with `components`.
pub open spec fn built(lead: Seq<u8>, components: Seq<Seq<u8>>) -> Seq<u8>
    decreases components.len(),
{
    if components.len() == 0 {
        lead
    } else {
        pushed(built(lead, components.drop_last()), components.last())
    }
}

/// The key of a path: the path spelled with single separators, without
/// `.` components behind the first, and without a separator at the end.
/// Two paths have the same key exactly when they have the same lead and
/// the same components; `..` is a component like any other.
pub open spec fn path_key(path: Seq<u8>) -> Seq<u8> {
    built(lead(path), components_from(path, 0))
}

/// Appends `component` to `path`, after a separator where one is needed.
pub fn push_component(path: &mut Vec<u8>, component: &[u8])
    ensures
        final(path)@ == pushed(old(path)@, component@),
{
    if path.len() > 0 && path[path.len() - 1] != SLASH {
        path.push(SLASH);
    }
    let ghost start = path@;
    let mut i: usize = 0;
    while i < component.len()
        invariant
            i <= component.len(),
            path@ == start + component@.take(i as int),
        decreases component.len() - i,
    {
        path.push(component[i]);
        i = i + 1;
        assert(path@ =~= start + component@.take(i as int));
    }
    assert(component@.take(i as int) =~= component@);
    assert(start + component@ =~= pushed(old(path)@, component@));
}

fn find_component_end(path: &[u8], from: usize) -> (end: usize)
    requires
        from <= path@.len(),
    ensures
        end == component_end(path@, from as int),
        from <= end <= path@.len(),
{
    let mut end = from;
    while end < path.len() && path[end] != SLASH
        invariant
            from <= end <= path@.len(),
            component_end(path@, end as int) == component_end(path@, from as int),
        decreases path@.len() - end,
    {
        end = end + 1;
    }
    end
}

/// Computes the key of a path.
pub fn key_of(path: &[u8]) -> (key: Vec<u8>)
    ensures
        key@ == path_key(path@),
{
    let n = path.len();
    let mut key: Vec<u8> = Vec::new();
    if n > 0 && path[0] == SLASH {
        key.push(SLASH);
    } else if n > 0 && path[0] == DOT && (n == 1 || path[1] == SLASH) {
        key.push(DOT);
    }
    assert(key@ =~= lead(path@));
    let ghost mut done: Seq<Seq<u8>> = Seq::empty();
    let mut at: usize = 0;
    assert(done + components_from(path@, 0) =~= components_from(path@, 0));
    while at < n
        invariant
            n == path@.len(),
            at <= n,
            key@ == built(lead(path@), done),
            components_from(path@, 0) == done + components_from(path@, at as int),
        decreases n - at,
    {
        if path[at] == SLASH {
            at = at + 1;
        } else {
            let end = find_component_end(path, at);
            proof {
                lemma_component_end(path@, at as int + 1);
            }
            let ghost component = path@.subrange(at as int, end as int);
            if end - at == 1 && path[at] == DOT {
                assert(component =~= seq![DOT]);
            } else {
                assert(component != seq![DOT]) by {
                    if end - at == 1 {
                        assert(component[0] == path@[at as int]);
                    } else {
                        assert(component.len() != 1);
                    }
                }
                let part = vstd::slice::slice_subrange(path, at, end);
                push_component(&mut key, part);
                proof {
                    let next = done.push(component);
                    assert(next.drop_last() =~= done);
                    assert(next + components_from(path@, end as int) =~= done + (seq![component]
                        + components_from(path@, end as int)));
                    done = next;
                }
            }
            at = end;
        }
    }
    assert(done + Seq::<Seq<u8>>::empty() =~= done);
    key
}

} // verus!
