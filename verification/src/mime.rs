//! Content types of the dashboard's files, by file extension.
use crate::bytes_order::{compare_bytes, Cmp};
use vstd::prelude::*;
use vstd::string::StringSliceAdditionalSpecFns;

verus! {

/// `.`
pub const DOT: u8 = 0x2e;

/// The bytes after the last `.` of `p`; all of `p` when it has none.
pub open spec fn extension(p: Seq<u8>) -> Seq<u8>
    decreases p.len(),
{
    if p.len() == 0 {
        p
    } else if p.last() == DOT {
        Seq::empty()
    } else {
        extension(p.drop_last()).push(p.last())
    }
}

/// The content type of a file with extension `ext`.
pub open spec fn mime_type(ext: Seq<u8>) -> Seq<char> {
    if ext == "html".spec_bytes() {
        "text/html; charset=utf-8"@
    } else if ext == "js".spec_bytes() || ext == "mjs".spec_bytes() {
        "text/javascript; charset=utf-8"@
    } else if ext == "css".spec_bytes() {
        "text/css; charset=utf-8"@
    } else if ext == "json".spec_bytes() {
        "application/json"@
    } else if ext == "svg".spec_bytes() {
        "image/svg+xml"@
    } else if ext == "png".spec_bytes() {
        "image/png"@
    } else if ext == "jpg".spec_bytes() || ext == "jpeg".spec_bytes() {
        "image/jpeg"@
    } else if ext == "ico".spec_bytes() {
        "image/x-icon"@
    } else if ext == "woff2".spec_bytes() {
        "font/woff2"@
    } else if ext == "woff".spec_bytes() {
        "font/woff"@
    } else {
        "application/octet-stream"@
    }
}

/// The extension of `p` is what follows its dot at `d`, when no later
/// byte is a dot.
proof fn lemma_extension_after(p: Seq<u8>, d: int)
    requires
        -1 <= d < p.len(),
        d >= 0 ==> p[d] == DOT,
        forall|i: int| d < i < p.len() ==> #[trigger] p[i] != DOT,
    ensures
        extension(p) == p.subrange(d + 1, p.len() as int),
    decreases p.len(),
{
    if p.len() == 0 {
    } else if d == p.len() - 1 {
        assert(p.subrange(d + 1, p.len() as int) =~= Seq::<u8>::empty());
    } else {
        assert(p.last() == p[p.len() - 1]);
        lemma_extension_after(p.drop_last(), d);
        assert(p.subrange(d + 1, p.len() as int) =~= p.drop_last().subrange(d + 1, p.len() - 1).push(p.last()));
    }
}

/// Whether two byte strings are equal.
fn same_bytes(a: &[u8], b: &[u8]) -> (r: bool)
    ensures
        r == (a@ == b@),
{
    match compare_bytes(a, b) {
        Cmp::Equal => true,
        _ => false,
    }
}

/// The content type for a file path, by the extension after its last `.`.
pub fn mime_for(path: &str) -> (m: &'static str)
    ensures
        m@ == mime_type(extension(path.spec_bytes())),
{
    let b = path.as_bytes();
    let mut i = b.len();
    while i > 0 && b[i - 1] != DOT
        invariant
            i <= b@.len(),
            forall|j: int| i <= j < b@.len() ==> #[trigger] b@[j] != DOT,
        decreases i,
    {
        i = i - 1;
    }
    let ext = vstd::slice::slice_subrange(b, i, b.len());
    proof {
        lemma_extension_after(b@, i - 1);
    }
    if same_bytes(ext, "html".as_bytes()) {
        "text/html; charset=utf-8"
    } else if same_bytes(ext, "js".as_bytes()) || same_bytes(ext, "mjs".as_bytes()) {
        "text/javascript; charset=utf-8"
    } else if same_bytes(ext, "css".as_bytes()) {
        "text/css; charset=utf-8"
    } else if same_bytes(ext, "json".as_bytes()) {
        "application/json"
    } else if same_bytes(ext, "svg".as_bytes()) {
        "image/svg+xml"
    } else if same_bytes(ext, "png".as_bytes()) {
        "image/png"
    } else if same_bytes(ext, "jpg".as_bytes()) || same_bytes(ext, "jpeg".as_bytes()) {
        "image/jpeg"
    } else if same_bytes(ext, "ico".as_bytes()) {
        "image/x-icon"
    } else if same_bytes(ext, "woff2".as_bytes()) {
        "font/woff2"
    } else if same_bytes(ext, "woff".as_bytes()) {
        "font/woff"
    } else {
        "application/octet-stream"
    }
}

/// The extension of a path is the text after its last `.`: it holds no
/// `.`, the path ends with it, and a `.` precedes it unless it is the whole
/// path.
pub proof fn lemma_extension(p: Seq<u8>)
    ensures
        forall|i: int| 0 <= i < extension(p).len() ==> #[trigger] extension(p)[i] != DOT,
        extension(p).len() <= p.len(),
        p.subrange(p.len() - extension(p).len(), p.len() as int) == extension(p),
        extension(p).len() < p.len() ==> p[p.len() - extension(p).len() - 1] == DOT,
    decreases p.len(),
{
    if p.len() > 0 && p.last() != DOT {
        let q = p.drop_last();
        lemma_extension(q);
        let e = extension(q);
        assert(extension(p) == e.push(p.last()));
        assert forall|i: int| 0 <= i < extension(p).len() implies #[trigger] extension(p)[i] != DOT by {
            if i < e.len() {
                assert(extension(p)[i] == e[i]);
            }
        }
        assert(p.subrange(p.len() - extension(p).len(), p.len() as int) =~= q.subrange(
            q.len() - e.len(),
            q.len() as int,
        ).push(p.last()));
        if extension(p).len() < p.len() {
            assert(p[p.len() - extension(p).len() - 1] == q[q.len() - e.len() - 1]);
        }
    } else if p.len() > 0 {
        assert(p.subrange(p.len() as int, p.len() as int) =~= Seq::<u8>::empty());
    }
}

} // verus!
