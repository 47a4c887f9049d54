//! Joining untrusted path fragments, such as asset ids and track sources, onto a
//! base directory without letting them escape it.

use vstd::prelude::*;

use crate::charseq::{chars_of, concat, spells, split_fields, split_on, string_of};
use crate::error::ServerError;

verus! {

/// `path` is absolute: it starts at the root.
pub open spec fn is_absolute(path: Seq<char>) -> bool {
    path.len() > 0 && path[0] == '/'
}

/// `path` has a component other than a plain name: a leading `.` or a `..`
/// anywhere. Empty components and a `.` past the first are not components at
/// all: they fold away.
pub open spec fn has_special_component(path: Seq<char>) -> bool {
    let fields = split_on(path, '/');
    fields[0] == seq!['.'] || exists|k: int| 0 <= k < fields.len() && #[trigger] fields[k] == seq!['.', '.']
}

/// `relative` appended to `base`, with a separator between them unless `base` is
/// empty or already ends in one.
pub open spec fn joined(base: Seq<char>, relative: Seq<char>) -> Seq<char> {
    if base.len() > 0 && base.last() != '/' {
        base + seq!['/'] + relative
    } else {
        base + relative
    }
}

/// Joins `untrusted` onto `base`, refusing anything that could escape `base`: an
/// absolute path, or one with a component that is not a plain name (`..`, or a
/// leading `.`). Both refusals are [`ServerError::BadRequest`], quoting `untrusted`.
pub fn resolve_within(base: &str, untrusted: &str) -> (r: Result<String, ServerError>)
    ensures
        is_absolute(untrusted@) ==> (r matches Err(ServerError::BadRequest(m))
            && m@ == "absolute path not allowed: "@ + untrusted@),
        !is_absolute(untrusted@) && has_special_component(untrusted@) ==> (r matches Err(
            ServerError::BadRequest(m),
        ) && m@ == "invalid path component in: "@ + untrusted@),
        !is_absolute(untrusted@) && !has_special_component(untrusted@) ==> (r matches Ok(p)
            && p@ == joined(base@, untrusted@)),
{
    let rel = chars_of(untrusted);
    if rel.len() > 0 && rel[0] == '/' {
        return Err(ServerError::BadRequest(concat("absolute path not allowed: ", untrusted)));
    }
    let fields = split_fields(rel.as_slice(), '/');
    let ghost views = fields@.map_values(|f: Vec<char>| f@);
    proof {
        assert(views.len() > 0) by {
            lemma_split_nonempty(rel@, '/');
        }
        assert(views[0] == fields@[0]@);
    }
    proof {
        reveal_strlit(".");
        assert("."@ =~= seq!['.']);
        reveal_strlit("..");
        assert(".."@ =~= seq!['.', '.']);
    }
    if spells(fields[0].as_slice(), ".") {
        return Err(ServerError::BadRequest(concat("invalid path component in: ", untrusted)));
    }
    for k in 0..fields.len()
        invariant
            views == fields@.map_values(|f: Vec<char>| f@),
            views == split_on(rel@, '/'),
            rel@ == untrusted@,
            !is_absolute(untrusted@),
            views[0] != seq!['.'],
            ".."@ == seq!['.', '.'],
            forall|j: int| 0 <= j < k ==> #[trigger] views[j] != seq!['.', '.'],
    {
        proof {
            assert(views[k as int] == fields@[k as int]@);
        }
        if spells(fields[k].as_slice(), "..") {
            return Err(ServerError::BadRequest(concat("invalid path component in: ", untrusted)));
        }
    }
    proof {
        assert(!has_special_component(untrusted@));
    }
    let mut out = chars_of(base);
    if out.len() > 0 && out[out.len() - 1] != '/' {
        out.push('/');
    }
    let ghost front = out@;
    for i in 0..rel.len()
        invariant
            out@ == front + rel@.take(i as int),
    {
        out.push(rel[i]);
        proof {
            assert(out@ =~= front + rel@.take(i + 1));
        }
    }
    proof {
        assert(rel@.take(rel@.len() as int) =~= rel@);
        assert(out@ =~= joined(base@, untrusted@));
    }
    Ok(string_of(out.as_slice()))
}

proof fn lemma_split_nonempty(s: Seq<char>, sep: char)
    ensures
        split_on(s, sep).len() > 0,
    decreases s.len(),
{
    if s.len() > 0 {
        lemma_split_nonempty(s.drop_last(), sep);
    }
}

} // verus!
