//! Path text helpers.
//!
//! Paths are plain text to the engine: joining and relativizing operate
//! character-wise, with `/` as the separator. Reading and writing real
//! files is the surrounding program's business.

use vstd::prelude::*;

verus! {

/// Joining two path texts: an absolute second path replaces the first;
/// otherwise the two are joined with a single separator.
pub open spec fn spec_join_paths(a: Seq<char>, b: Seq<char>) -> Seq<char> {
    if b.len() > 0 && b[0] == '/' {
        b
    } else if a.len() == 0 {
        b
    } else if a.last() == '/' {
        a + b
    } else {
        a + seq!['/'] + b
    }
}

/// The path of `full` relative to `base`: what follows `base` and one
/// separator character, or empty text when `full` does not start with
/// `base`.
pub open spec fn spec_find_rel_path(base: Seq<char>, full: Seq<char>) -> Seq<char> {
    if base.is_prefix_of(full) {
        full.skip(base.len() + 1 as int)
    } else {
        Seq::empty()
    }
}

/// Joins two path texts.
pub fn join_paths(path1: &String, path2: &String) -> (r: String)
    ensures
        r@ == spec_join_paths(path1@, path2@),
{
    proof {
        reveal_strlit("/");
        assert("/"@ =~= seq!['/']);
    }
    let len2 = path2.as_str().unicode_len();
    if len2 > 0 && path2.as_str().get_char(0) == '/' {
        return path2.clone();
    }
    let len1 = path1.as_str().unicode_len();
    if len1 == 0 {
        return path2.clone();
    }
    let mut joined = path1.clone();
    if path1.as_str().get_char(len1 - 1) != '/' {
        joined.append("/");
    }
    joined.append(path2.as_str());
    proof {
        if path1@.last() == '/' {
            assert(joined@ =~= path1@ + path2@);
        } else {
            assert(joined@ =~= path1@ + seq!['/'] + path2@);
        }
    }
    joined
}

/// The path of `full` relative to `base`. The caller never hands a
/// `full` that equals a prefixing `base` exactly: there must be room for
/// the separator.
pub fn find_rel_path(base_path: &String, full_path: &String) -> (r: String)
    requires
        base_path@.is_prefix_of(full_path@) ==> full_path@.len() > base_path@.len(),
    ensures
        r@ == spec_find_rel_path(base_path@, full_path@),
{
    let bl = base_path.as_str().unicode_len();
    let fl = full_path.as_str().unicode_len();
    if fl <= bl {
        proof {
            assert(!base_path@.is_prefix_of(full_path@));
        }
        return String::new();
    }
    let mut i: usize = 0;
    while i < bl
        invariant
            i <= bl,
            bl == base_path@.len(),
            fl == full_path@.len(),
            bl < fl,
            forall|j: int| 0 <= j < i ==> base_path@[j] == full_path@[j],
        decreases bl - i,
    {
        if base_path.as_str().get_char(i) != full_path.as_str().get_char(i) {
            proof {
                assert(!base_path@.is_prefix_of(full_path@)) by {
                    if base_path@.is_prefix_of(full_path@) {
                        assert(base_path@[i as int] == full_path@.subrange(0, bl as int)[i as int]);
                    }
                }
            }
            return String::new();
        }
        i = i + 1;
    }
    proof {
        assert(base_path@ =~= full_path@.subrange(0, bl as int));
        assert(base_path@.is_prefix_of(full_path@));
    }
    let tail = full_path.as_str().substring_char(bl + 1, fl);
    let r = String::from_str(tail);
    proof {
        assert(r@ =~= full_path@.skip(bl + 1));
    }
    r
}

} // verus!
