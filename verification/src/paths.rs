//! Display paths: the path of the nearest node that carries one, then the names
//! below it.
use crate::text;
use crate::tree::{RootRef, Tree};
use vstd::prelude::*;

verus! {

/// A path with one more name: separated by `\`, or by `/` where the path is a
/// POSIX one; a path that ends in a separator gets no second one.
pub open spec fn joined(path: Seq<char>, name: Seq<char>) -> Seq<char> {
    if path.len() > 0 && (path.last() == '\\' || path.last() == '/') {
        path + name
    } else if path.len() > 0 && path[0] == '/' {
        path.push('/') + name
    } else {
        path.push('\\') + name
    }
}

/// The path that a list of path roots gives to a node: that of the first entry.
pub open spec fn given_path(roots: Seq<RootRef>, id: int) -> Option<Seq<char>>
    decreases roots.len(),
{
    if roots.len() == 0 {
        None
    } else if roots[0].node == id {
        Some(roots[0].path@)
    } else {
        given_path(roots.drop_first(), id)
    }
}

/// Adds a name to a path.
pub fn join_path(path: &str, name: &str) -> (r: String)
    ensures
        r@ == joined(path@, name@),
{
    let cs = text::chars_of(path);
    let n: usize = cs.len();
    let mut out: String = path.to_owned();
    if n > 0 && (cs[n - 1] == '\\' || cs[n - 1] == '/') {
    } else if n > 0 && cs[0] == '/' {
        out.push('/');
    } else {
        out.push('\\');
    }
    out.append(name);
    out
}

impl Tree {
    /// The display path of a node.
    pub open spec fn path_of(&self, id: int) -> Seq<char>
        decreases id,
    {
        match given_path(self.roots@, id) {
            Some(p) => p,
            None => if self.has(id) && self.at(id).parent < id {
                joined(self.path_of(self.at(id).parent as int), self.shown(id))
            } else {
                self.shown(id)
            },
        }
    }

    /// The path that the path roots give to a node.
    pub(crate) fn own_path(&self, id: u32) -> (r: Option<String>)
        ensures
            match r {
                Some(p) => given_path(self.roots@, id as int) == Some(p@),
                None => given_path(self.roots@, id as int) is None,
            },
    {
        let mut k: usize = 0;
        assert(self.roots@.skip(0) =~= self.roots@);
        while k < self.roots.len()
            invariant
                k <= self.roots.len(),
                given_path(self.roots@, id as int) == given_path(
                    self.roots@.skip(k as int),
                    id as int,
                ),
            decreases self.roots.len() - k,
        {
            if self.roots[k].node == id {
                return Some(self.roots[k].path.clone());
            }
            assert(self.roots@.skip(k as int).drop_first() =~= self.roots@.skip(k + 1));
            k += 1;
        }
        None
    }

    /// The display path of a node.
    pub fn node_path(&self, id: u32) -> (r: String)
        requires
            self.wf(),
        ensures
            r@ == self.path_of(id as int),
        decreases id,
    {
        match self.own_path(id) {
            Some(p) => p,
            None => {
                if (id as usize) < self.arena.len() && self.arena[id as usize].parent < id {
                    let above = self.node_path(self.arena[id as usize].parent);
                    join_path(above.as_str(), self.name(id).as_str())
                } else {
                    self.name(id)
                }
            },
        }
    }
}

/// The path of a node is the one it was given first, where it was given any; else
/// that of its parent with the node's name behind it, set off by one separator: a
/// slash where the path begins with one, a backslash elsewhere.
pub proof fn a_path_adds_the_name_to_that_of_the_parent(t: &Tree, id: u32, r: String, up: String)
    requires
        t.wf(),
        0 < id < t.arena@.len(),
        call_ensures(Tree::node_path, (t, id), r),
        call_ensures(Tree::node_path, (t, t.arena@[id as int].parent), up),
    ensures
        (forall|k: int| 0 <= k < t.roots@.len() ==> (#[trigger] t.roots@[k]).node != id) ==> {
            let name = t.shown(id as int);
            let closed = up@.len() > 0 && (up@.last() == '\\' || up@.last() == '/');
            &&& closed ==> r@ == up@ + name
            &&& !closed && up@.len() > 0 && up@[0] == '/' ==> r@ == up@.push('/') + name
            &&& !closed && !(up@.len() > 0 && up@[0] == '/') ==> r@ == up@.push('\\') + name
        },
        forall|k: int|
            0 <= k < t.roots@.len() && (#[trigger] t.roots@[k]).node == id && (forall|j: int|
                0 <= j < k ==> (#[trigger] t.roots@[j]).node != id) ==> r@ == t.roots@[k].path@,
{
    assert(t.parent_wf(id as int));
    given_is_first(t.roots@, id as int);
}

proof fn given_is_first(roots: Seq<RootRef>, id: int)
    ensures
        (forall|k: int| 0 <= k < roots.len() ==> (#[trigger] roots[k]).node != id) ==> given_path(
            roots,
            id,
        ) is None,
        forall|k: int|
            0 <= k < roots.len() && (#[trigger] roots[k]).node == id && (forall|j: int|
                0 <= j < k ==> (#[trigger] roots[j]).node != id) ==> given_path(roots, id) == Some(
                roots[k].path@,
            ),
    decreases roots.len(),
{
    if roots.len() > 0 {
        let rest = roots.drop_first();
        given_is_first(rest, id);
        assert forall|k: int| 0 <= k < rest.len() implies #[trigger] rest[k] == roots[k + 1] by {}
        if roots[0].node != id {
            if forall|k: int| 0 <= k < roots.len() ==> (#[trigger] roots[k]).node != id {
                assert forall|k: int| 0 <= k < rest.len() implies (#[trigger] rest[k]).node != id by {
                    assert(roots[k + 1].node != id);
                }
            }
            assert forall|k: int|
                0 <= k < roots.len() && (#[trigger] roots[k]).node == id && (forall|j: int|
                    0 <= j < k ==> (#[trigger] roots[j]).node != id) implies given_path(roots, id)
                == Some(roots[k].path@) by {
                assert(rest[k - 1] == roots[k]);
                assert forall|j: int| 0 <= j < k - 1 implies (#[trigger] rest[j]).node != id by {
                    assert(roots[j + 1].node != id);
                }
            }
        }
    }
}

/// A name stands behind exactly one separator: the path's own where it ends in
/// one, a slash in a path that begins with one, and a backslash otherwise.
pub proof fn a_name_stands_behind_one_separator(path: &str, name: &str, r: String)
    requires
        call_ensures(join_path, (path, name), r),
    ensures
        path@.len() > 0 && (path@.last() == '\\' || path@.last() == '/') ==> r@ == path@ + name@,
        path@.len() > 0 && path@.last() != '\\' && path@.last() != '/' && path@[0] == '/' ==> r@
            == path@ + seq!['/'] + name@,
        path@.len() > 0 && path@.last() != '\\' && path@.last() != '/' && path@[0] != '/' ==> r@
            == path@ + seq!['\\'] + name@,
        path@.len() == 0 ==> r@ == seq!['\\'] + name@,
{
    assert(path@.push('/') =~= path@ + seq!['/']);
    assert(path@.push('\\') =~= path@ + seq!['\\']);
}

} // verus!
