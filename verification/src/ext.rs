//! File-extension extraction, normalization, and matching.
//!
//! The extension of a file name is the text after its last `'.'`; a
//! name without a dot has none.  A configured extension is normalized
//! by stripping leading dots, and matching is exact and case-sensitive.

use vstd::prelude::*;
use vstd::string::StrSliceExecFns;

verus! {

/// The extension of `name`: the characters after the last `'.'`, or
/// `None` when `name` holds no dot.
pub open spec fn spec_extension(name: Seq<char>) -> Option<Seq<char>>
    decreases name.len(),
{
    if name.len() == 0 {
        None
    } else if name.last() == '.' {
        Some(Seq::empty())
    } else {
        match spec_extension(name.drop_last()) {
            Some(e) => Some(e.push(name.last())),
            None => None,
        }
    }
}

/// `ext` with every leading `'.'` removed.
pub open spec fn spec_strip_dots(ext: Seq<char>) -> Seq<char>
    decreases ext.len(),
{
    if ext.len() > 0 && ext[0] == '.' {
        spec_strip_dots(ext.subrange(1, ext.len() as int))
    } else {
        ext
    }
}

/// When `name[j]` is the last dot of `name`, the extension is exactly
/// the text after position `j`.
proof fn lemma_extension_after_last_dot(name: Seq<char>, j: int)
    requires
        0 <= j < name.len(),
        name[j] == '.',
        forall|i: int| j < i < name.len() ==> name[i] != '.',
    ensures
        spec_extension(name) == Some(name.subrange(j + 1, name.len() as int)),
    decreases name.len(),
{
    if j == name.len() - 1 {
        assert(name.subrange(j + 1, name.len() as int) =~= Seq::<char>::empty());
    } else {
        lemma_extension_after_last_dot(name.drop_last(), j);
        assert(name.subrange(j + 1, name.len() as int) =~= name.drop_last().subrange(
            j + 1,
            name.len() - 1,
        ).push(name.last()));
    }
}

/// A name without any dot has no extension.
proof fn lemma_extension_no_dot(name: Seq<char>)
    requires
        forall|i: int| 0 <= i < name.len() ==> name[i] != '.',
    ensures
        spec_extension(name) is None,
    decreases name.len(),
{
    if name.len() > 0 {
        lemma_extension_no_dot(name.drop_last());
    }
}

/// The extension of `name`, or `None` when the name holds no dot.
pub fn extension_of(name: &str) -> (r: Option<String>)
    ensures
        match r {
            Some(e) => spec_extension(name@) == Some(e@),
            None => spec_extension(name@) is None,
        },
{
    let len: usize = name.unicode_len();
    let mut i: usize = len;
    while i > 0
        invariant
            i <= len,
            len == name@.len(),
            forall|m: int| i <= m < len ==> name@[m] != '.',
        decreases i,
    {
        if name.get_char(i - 1) == '.' {
            let e = name.substring_char(i, len);
            proof {
                lemma_extension_after_last_dot(name@, i - 1);
            }
            return Some(e.to_owned());
        }
        i = i - 1;
    }
    proof {
        lemma_extension_no_dot(name@);
    }
    None
}

/// Whether `name` has exactly the extension `ext` (case-sensitive).
pub fn matches_extension(name: &str, ext: &String) -> (r: bool)
    ensures
        r == (spec_extension(name@) == Some(ext@)),
{
    match extension_of(name) {
        Some(e) => e.eq(ext),
        None => false,
    }
}

/// `ext` with every leading `'.'` removed (so `".txt"` becomes `"txt"`).
pub fn normalize_extension(ext: &str) -> (r: String)
    ensures
        r@ == spec_strip_dots(ext@),
{
    let len: usize = ext.unicode_len();
    let mut i: usize = 0;
    proof {
        assert(ext@.subrange(0, len as int) =~= ext@);
    }
    while i < len && ext.get_char(i) == '.'
        invariant
            i <= len,
            len == ext@.len(),
            forall|m: int| 0 <= m < i ==> ext@[m] == '.',
            spec_strip_dots(ext@) == spec_strip_dots(ext@.subrange(i as int, len as int)),
        decreases len - i,
    {
        proof {
            assert(ext@.subrange(i as int, len as int).subrange(
                1,
                ext@.subrange(i as int, len as int).len() as int,
            ) =~= ext@.subrange(i + 1, len as int));
        }
        i = i + 1;
    }
    let r = ext.substring_char(i, len);
    proof {
        let tail = ext@.subrange(i as int, len as int);
        assert(spec_strip_dots(tail) == tail);
    }
    r.to_owned()
}

} // verus!
