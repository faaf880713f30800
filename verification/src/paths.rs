//! Slash-separated paths as character strings, joined the way
//! `Path::join` joins them on Unix.

use vstd::prelude::*;

use crate::text::{extend_chars, extend_str, string_of, chars_of};

verus! {

/// `base.join(part)`: an absolute `part` replaces `base`; otherwise a
/// `'/'` goes between them unless `base` is empty or already ends in one.
pub open spec fn path_join(base: Seq<char>, part: Seq<char>) -> Seq<char> {
    if part.len() > 0 && part[0] == '/' {
        part
    } else if base.len() == 0 || base.last() == '/' {
        base + part
    } else {
        base.push('/') + part
    }
}

/// `path_join` computed over character vectors.
pub fn join_chars_path(base: &Vec<char>, part: &Vec<char>) -> (r: Vec<char>)
    ensures
        r@ == path_join(base@, part@),
{
    if part.len() > 0 && part[0] == '/' {
        return part.clone();
    }
    let mut out = base.clone();
    if !(base.len() == 0 || base[base.len() - 1] == '/') {
        out.push('/');
    }
    extend_chars(&mut out, part);
    out
}

/// `path_join` over strings.
pub fn join_path(base: &str, part: &str) -> (r: String)
    ensures
        r@ == path_join(base@, part@),
{
    let b = chars_of(base);
    let p = chars_of(part);
    let r = join_chars_path(&b, &p);
    string_of(&r)
}

/// `path_join` of a base and a literal component.
pub fn join_path_lit(base: &Vec<char>, part: &str) -> (r: Vec<char>)
    ensures
        r@ == path_join(base@, part@),
{
    let p = chars_of(part);
    join_chars_path(base, &p)
}

} // verus!
