//! Helpers shared by the request and response code.
use vstd::prelude::*;
use crate::text::join;

verus! {

/// The strings of `arr` one after another, with `delim` between neighbours.
pub fn array_stringify(arr: &[String], delim: char) -> (res: String)
    ensures
        res@ == join(arr@.map_values(|s: String| s@), seq![delim]),
{
    let ghost parts = arr@.map_values(|s: String| s@);
    let mut out = String::new();
    let len = arr.len();
    let mut i: usize = 0;
    while i < len
        invariant
            len == arr@.len(),
            parts == arr@.map_values(|s: String| s@),
            i <= len,
            out@ == join(parts.take(i as int), seq![delim]),
        decreases len - i,
    {
        let ghost before = out@;
        if i > 0 {
            out.push(delim);
        }
        out.append(arr[i].as_str());
        proof {
            let t = parts.take(i + 1);
            assert(t.drop_last() =~= parts.take(i as int));
            assert(t.last() == arr@[i as int]@);
            if i == 0 {
                assert(out@ =~= t[0]);
            } else {
                assert(out@ =~= before + seq![delim] + t.last());
            }
        }
        i = i + 1;
    }
    proof {
        assert(parts.take(len as int) =~= parts);
    }
    out
}


/// The MIME type that the extension of `path` suggests first, if any.
pub uninterp spec fn guessed_mime(path: Seq<char>) -> Option<Seq<char>>;

/// `new_mime_guess::from_path(path).first()`, written as text. The guess
/// looks only at the extension of `path` (no disk access), so a path without
/// any `.` gets no guess; which type an extension maps to is not stated.
#[verifier::external_body]
fn first_guessed_mime(path: &str) -> (res: Option<String>)
    ensures
        match guessed_mime(path@) {
            Some(m) => res is Some && res->Some_0@ == m,
            None => res is None,
        },
        !path@.contains('.') ==> res is None,
{
    match new_mime_guess::from_path(path).first() {
        Some(mime) => Some(mime.to_string()),
        None => None,
    }
}

/// The MIME type of the file at `path` as its extension tells it; `None` when
/// the extension tells nothing and the contents must be looked at.
pub fn deduce_file_mime(path: &str) -> (res: Option<String>)
    ensures
        match guessed_mime(path@) {
            Some(m) => res is Some && res->Some_0@ == m,
            None => res is None,
        },
        !path@.contains('.') ==> res is None,
{
    first_guessed_mime(path)
}

} // verus!
