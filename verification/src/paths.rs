//! Lexical path arithmetic: the parent of a path.
//!
//! Paths are taken as they are written, with `/` between their components.
//! On a path in canonical form, without a separator at its end or two in a
//! row, the parent is the one that the platform's own path type gives where
//! it separates by `/`.

use vstd::prelude::*;
use vstd::string::*;

verus! {

/// The character that separates the components of a path.
pub const SEPARATOR: char = '/';

/// Position of the last separator in `path`, or -1 when it holds none.
pub open spec fn last_separator(path: Seq<char>) -> int
    decreases path.len(),
{
    if path.len() == 0 {
        -1
    } else if path.last() == SEPARATOR {
        path.len() - 1
    } else {
        last_separator(path.drop_last())
    }
}

/// The path one component above `path`, if there is one.
///
/// The last component and the separator before it are cut off. A separator
/// at the very start is the root and is kept. The root and the empty path
/// have no parent; a single relative component has the empty path as parent.
pub open spec fn parent(path: Seq<char>) -> Option<Seq<char>> {
    let cut = last_separator(path);
    if path.len() == 0 {
        None
    } else if cut < 0 {
        Some(Seq::<char>::empty())
    } else if cut > 0 {
        Some(path.subrange(0, cut))
    } else if path.len() == 1 {
        None
    } else {
        Some(path.subrange(0, 1))
    }
}

/// The last separator lies within the path, where there is one.
proof fn lemma_last_separator_bounds(path: Seq<char>)
    ensures
        -1 <= last_separator(path) < path.len(),
        last_separator(path) >= 0 ==> path[last_separator(path)] == SEPARATOR,
    decreases path.len(),
{
    if path.len() > 0 && path.last() != SEPARATOR {
        lemma_last_separator_bounds(path.drop_last());
    }
}

/// A parent is strictly shorter than its child.
pub proof fn lemma_parent_shorter(path: Seq<char>)
    ensures
        parent(path) is Some ==> parent(path)->0.len() < path.len(),
{
    lemma_last_separator_bounds(path);
}

/// Computes [`parent`].
pub fn parent_of(path: &str) -> (up: Option<String>)
    ensures
        up is Some <==> parent(path@) is Some,
        up is Some ==> up->0@ == parent(path@)->0,
{
    let length = path.unicode_len();
    let mut count: usize = 0;
    let mut cut: usize = 0;
    let mut found: bool = false;
    let chars = path.chars();
    for c in it: chars
        invariant
            it.seq() == path@,
            count == it.index(),
            length == path@.len(),
            found <==> last_separator(path@.take(count as int)) >= 0,
            found ==> cut == last_separator(path@.take(count as int)),
    {
        proof {
            assert(path@.take(count + 1).drop_last() =~= path@.take(count as int));
        }
        if c == SEPARATOR {
            cut = count;
            found = true;
        }
        count = count + 1;
    }
    proof {
        assert(path@.take(count as int) =~= path@);
        lemma_last_separator_bounds(path@);
    }
    if count == 0 {
        None
    } else if !found {
        Some(String::new())
    } else if cut > 0 {
        Some(String::from_str(path.substring_char(0, cut)))
    } else if count == 1 {
        None
    } else {
        Some(String::from_str(path.substring_char(0, 1)))
    }
}

} // verus!
