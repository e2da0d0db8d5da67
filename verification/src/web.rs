//! Content-type selection for the file server: the MIME type a file is
//! served with, decided by its path's extension.
use vstd::prelude::*;

verus! {

/// Whether `s` ends with the bytes `suf`.
pub open spec fn has_suffix(s: Seq<u8>, suf: Seq<u8>) -> bool {
    s.len() >= suf.len() && s.subrange(s.len() - suf.len(), s.len() as int) == suf
}

/// The MIME type for a path, by extension; anything unknown is plain text.
pub open spec fn spec_content_type(p: Seq<u8>) -> Seq<char> {
    if has_suffix(p, seq![46u8, 105u8, 99u8, 111u8]) {
        "image/x-icon"@
    } else if has_suffix(p, seq![46u8, 106u8, 115u8]) {
        "application/javascript"@
    } else if has_suffix(p, seq![46u8, 115u8, 118u8, 103u8]) {
        "image/svg+xml"@
    } else if has_suffix(p, seq![46u8, 104u8, 116u8, 109u8, 108u8]) {
        "text/html"@
    } else if has_suffix(p, seq![46u8, 99u8, 115u8, 115u8]) {
        "text/css"@
    } else if has_suffix(p, seq![46u8, 112u8, 110u8, 103u8]) {
        "image/png"@
    } else if has_suffix(p, seq![46u8, 106u8, 112u8, 103u8]) {
        "image/jpeg"@
    } else {
        "text/plain"@
    }
}

/// `index.html` as bytes.
pub open spec fn index_page() -> Seq<u8> {
    seq![105u8, 110u8, 100u8, 101u8, 120u8, 46u8, 104u8, 116u8, 109u8, 108u8]
}

/// The file a request URI maps to: the serving directory with the URI
/// appended; a directory request, one ending in a slash, serves the
/// directory's `index.html`.
pub open spec fn spec_resolve_path(directory: Seq<u8>, uri: Seq<u8>) -> Seq<u8> {
    let p = directory + uri;
    if p.len() > 0 && p.last() == 47u8 {
        p + index_page()
    } else {
        p
    }
}

/// The filesystem path a request URI is served from.
pub fn resolve_path(directory: &Vec<u8>, uri: &Vec<u8>) -> (r: Vec<u8>)
    ensures
        r@ == spec_resolve_path(directory@, uri@),
{
    let mut path = crate::bytes::clone_bytes(directory);
    let mut tail = crate::bytes::clone_bytes(uri);
    path.append(&mut tail);
    proof {
        assert(path@ =~= directory@ + uri@);
    }
    if path.len() > 0 && path[path.len() - 1] == 47 {
        let mut page: Vec<u8> = vec![105, 110, 100, 101, 120, 46, 104, 116, 109, 108];
        proof {
            assert(page@ =~= index_page());
        }
        path.append(&mut page);
    }
    path
}

/// Whether the path ends with the given suffix.
fn ends_with_bytes(path: &Vec<u8>, suf: &Vec<u8>) -> (r: bool)
    ensures
        r == has_suffix(path@, suf@),
{
    let n = path.len();
    let m = suf.len();
    if n < m {
        return false;
    }
    let mut i: usize = 0;
    while i < m
        invariant
            0 <= i <= m,
            m <= n,
            n == path@.len(),
            m == suf@.len(),
            forall|j: int| 0 <= j < i ==> path@[n - m + j] == suf@[j],
        decreases m - i,
    {
        if path[n - m + i] != suf[i] {
            proof {
                assert(path@.subrange(n - m, n as int)[i as int] != suf@[i as int]);
            }
            return false;
        }
        i = i + 1;
    }
    proof {
        assert(path@.subrange(n - m, n as int) =~= suf@);
    }
    true
}

/// The content type a file at the given path is served with.
pub fn get_content_type(path: &Vec<u8>) -> (r: &'static str)
    ensures
        r@ == spec_content_type(path@),
{
    if ends_with_bytes(path, &vec![46, 105, 99, 111]) {
        return "image/x-icon";
    } else if ends_with_bytes(path, &vec![46, 106, 115]) {
        return "application/javascript";
    } else if ends_with_bytes(path, &vec![46, 115, 118, 103]) {
        return "image/svg+xml";
    } else if ends_with_bytes(path, &vec![46, 104, 116, 109, 108]) {
        return "text/html";
    } else if ends_with_bytes(path, &vec![46, 99, 115, 115]) {
        return "text/css";
    } else if ends_with_bytes(path, &vec![46, 112, 110, 103]) {
        return "image/png";
    } else if ends_with_bytes(path, &vec![46, 106, 112, 103]) {
        return "image/jpeg";
    }
    "text/plain"
}

} // verus!
