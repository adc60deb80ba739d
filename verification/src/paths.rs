//! Paths as lists of components: where an entry lies below the root of the
//! tree that is being archived.

use vstd::prelude::*;
use vstd::string::StringExecFns;

verus! {

/// The texts of a list of path components.
pub open spec fn component_texts(components: Seq<String>) -> Seq<Seq<char>> {
    components.map_values(|c: String| c@)
}

/// The components written as one path, with `/` between neighbours.
pub open spec fn joined_path(components: Seq<Seq<char>>) -> Seq<char>
    decreases components.len(),
{
    if components.len() == 0 {
        Seq::empty()
    } else if components.len() == 1 {
        components[0]
    } else {
        joined_path(components.drop_last()) + seq!['/'] + components.last()
    }
}

/// Whether `path` lies at or below `base`: whether the components of `base`
/// are the first components of `path`.
pub open spec fn starts_with_base(base: Seq<Seq<char>>, path: Seq<Seq<char>>) -> bool {
    base.len() <= path.len() && path.take(base.len() as int) == base
}

/// Whether a component is the name of an entry: any component but `.`, `..`
/// and the root `/`.
pub open spec fn is_name(component: Seq<char>) -> bool {
    component != seq!['.'] && component != seq!['.', '.'] && component != seq!['/']
}

/// The path of an entry relative to `base`: what is left of `path` behind the
/// components of `base`, where `path` lies at or below it; else the last
/// component of `path`, where that is a name; else nothing.
pub open spec fn relative_path(base: Seq<Seq<char>>, path: Seq<Seq<char>>) -> Seq<char> {
    if starts_with_base(base, path) {
        joined_path(path.skip(base.len() as int))
    } else if path.len() > 0 && is_name(path.last()) {
        path.last()
    } else {
        Seq::empty()
    }
}

/// Tells whether a component is the name of an entry.
pub fn is_name_component(component: &String) -> (r: bool)
    ensures
        r == is_name(component@),
{
    let mut here: String = String::new();
    here.append(".");
    let mut parent: String = String::new();
    parent.append("..");
    let mut root: String = String::new();
    root.append("/");
    proof {
        reveal_strlit(".");
        reveal_strlit("..");
        reveal_strlit("/");
        assert(here@ == seq!['.']);
        assert(parent@ == seq!['.', '.']);
        assert(root@ == seq!['/']);
    }
    *component != here && *component != parent && *component != root
}

/// Tells whether the components of `base` are the first components of `path`.
pub fn has_base(base: &Vec<String>, path: &Vec<String>) -> (r: bool)
    ensures
        r == starts_with_base(component_texts(base@), component_texts(path@)),
{
    if base.len() > path.len() {
        return false;
    }
    let ghost b = component_texts(base@);
    let ghost p = component_texts(path@);
    let mut i: usize = 0;
    while i < base.len()
        invariant
            i <= base@.len() <= path@.len(),
            b == component_texts(base@),
            p == component_texts(path@),
            forall|k: int| 0 <= k < i ==> #[trigger] p[k] == b[k],
        decreases base@.len() - i,
    {
        if base[i] != path[i] {
            proof {
                assert(p.take(b.len() as int)[i as int] == p[i as int]);
            }
            return false;
        }
        i += 1;
    }
    proof {
        assert(p.take(b.len() as int) == b);
    }
    true
}

/// Computes the path of an entry relative to the root of the tree, both given
/// by their components.
///
/// The root itself has the empty path. An entry that does not lie below the
/// root is named by its last component alone, and has the empty path where
/// that component is no name.
pub fn get_relative_path(base: &Vec<String>, path: &Vec<String>) -> (rel_path: String)
    ensures
        rel_path@ == relative_path(component_texts(base@), component_texts(path@)),
{
    let ghost p = component_texts(path@);
    if has_base(base, path) {
        let ghost rest = p.skip(base@.len() as int);
        let mut rel_path: String = String::new();
        let mut i: usize = base.len();
        proof {
            assert(rest.take(0) == Seq::<Seq<char>>::empty());
        }
        while i < path.len()
            invariant
                base@.len() <= i <= path@.len(),
                p == component_texts(path@),
                rest == p.skip(base@.len() as int),
                rel_path@ == joined_path(rest.take(i - base@.len())),
            decreases path@.len() - i,
        {
            let ghost done = rest.take(i - base@.len());
            let ghost next = rest.take(i - base@.len() + 1);
            proof {
                reveal_strlit("/");
                assert(next.drop_last() == done);
                assert(next.last() == path@[i as int]@);
            }
            if i > base.len() {
                rel_path.append("/");
                assert("/"@ == seq!['/']);
            }
            rel_path.append(path[i].as_str());
            i += 1;
        }
        proof {
            assert(rest.take(path@.len() - base@.len()) == rest);
        }
        rel_path
    } else if path.len() > 0 && is_name_component(&path[path.len() - 1]) {
        proof {
            assert(p.last() == path@[path@.len() - 1]@);
        }
        path[path.len() - 1].clone()
    } else {
        proof {
            if path@.len() > 0 {
                assert(p.last() == path@[path@.len() - 1]@);
            }
        }
        String::new()
    }
}

} // verus!
