//! The media type of a path, from the extension after its last dot,
//! compared without regard to ASCII case.

use vstd::prelude::*;

verus! {

/// ASCII upper-case letters become lower case; every other character is kept.
pub open spec fn ascii_lower(c: char) -> char {
    if 'A' <= c && c <= 'Z' {
        ((c as u32 + 32) as u8) as char
    } else {
        c
    }
}

/// The characters after the last `.` of `p`, or `None` where `p` holds no `.`.
pub open spec fn extension_of(p: Seq<char>) -> Option<Seq<char>>
    decreases p.len(),
{
    if p.len() == 0 {
        None
    } else if p.last() == '.' {
        Some(Seq::empty())
    } else {
        match extension_of(p.drop_last()) {
            Some(e) => Some(e.push(p.last())),
            None => None,
        }
    }
}

/// The media type for a lower-case extension.
pub open spec fn mime_for_extension(e: Seq<char>) -> Seq<char> {
    if e == "html"@ || e == "htm"@ {
        "text/html"@
    } else if e == "css"@ {
        "text/css"@
    } else if e == "js"@ {
        "application/javascript"@
    } else if e == "json"@ {
        "application/json"@
    } else if e == "png"@ {
        "image/png"@
    } else if e == "jpg"@ || e == "jpeg"@ {
        "image/jpeg"@
    } else if e == "gif"@ {
        "image/gif"@
    } else if e == "svg"@ {
        "image/svg+xml"@
    } else if e == "ico"@ {
        "image/x-icon"@
    } else if e == "webp"@ {
        "image/webp"@
    } else if e == "txt"@ {
        "text/plain"@
    } else if e == "pdf"@ {
        "application/pdf"@
    } else if e == "wasm"@ {
        "application/wasm"@
    } else {
        "application/octet-stream"@
    }
}

/// The media type of a path; a path without a known extension is an octet stream.
pub open spec fn mime_of(p: Seq<char>) -> Seq<char> {
    match extension_of(p) {
        Some(e) => mime_for_extension(e.map_values(|c: char| ascii_lower(c))),
        None => "application/octet-stream"@,
    }
}

fn lower_char(c: char) -> (r: char)
    ensures
        r == ascii_lower(c),
{
    if 'A' <= c && c <= 'Z' {
        let x: u32 = #[verifier::truncate] (c as u32);
        let b: u8 = #[verifier::truncate] ((x + 32) as u8);
        b as char
    } else {
        c
    }
}

/// Whether the characters of `e` are those of `lit`.
fn is_extension(e: &Vec<char>, lit: &str) -> (r: bool)
    ensures
        r == (e@ == lit@),
{
    let n = lit.unicode_len();
    if n != e.len() {
        return false;
    }
    let mut i: usize = 0;
    while i < n
        invariant
            n == e@.len(),
            n == lit@.len(),
            i <= n,
            e@.subrange(0, i as int) == lit@.subrange(0, i as int),
        decreases n - i,
    {
        if e[i] != lit.get_char(i) {
            assert(e@[i as int] != lit@[i as int]);
            return false;
        }
        assert(e@.subrange(0, i + 1) =~= e@.subrange(0, i as int).push(e@[i as int]));
        assert(lit@.subrange(0, i + 1) =~= lit@.subrange(0, i as int).push(lit@[i as int]));
        i = i + 1;
    }
    assert(e@ =~= e@.subrange(0, n as int));
    assert(lit@ =~= lit@.subrange(0, n as int));
    true
}

proof fn lemma_extension_after(p: Seq<char>, d: int)
    requires
        0 <= d < p.len(),
        p[d] == '.',
        forall|j: int| d < j < p.len() ==> p[j] != '.',
    ensures
        extension_of(p) == Some(p.subrange(d + 1, p.len() as int)),
    decreases p.len(),
{
    if d + 1 < p.len() {
        lemma_extension_after(p.drop_last(), d);
        assert(p.subrange(d + 1, p.len() as int) =~= p.drop_last().subrange(
            d + 1,
            p.len() - 1,
        ).push(p.last()));
    } else {
        assert(p.subrange(d + 1, p.len() as int) =~= Seq::<char>::empty());
    }
}

proof fn lemma_no_extension(p: Seq<char>)
    requires
        forall|j: int| 0 <= j < p.len() ==> p[j] != '.',
    ensures
        extension_of(p) is None,
    decreases p.len(),
{
    if p.len() > 0 {
        lemma_no_extension(p.drop_last());
    }
}

/// The media type of `path`, by its extension.
pub fn content_type(path: &str) -> (r: String)
    ensures
        r@ == mime_of(path@),
{
    let chars = crate::key::chars_of(path);
    let n = chars.len();
    let mut d: usize = n;
    while d > 0 && chars[d - 1] != '.'
        invariant
            d <= n,
            n == path@.len(),
            chars@ == path@,
            forall|j: int| d <= j < n ==> path@[j] != '.',
        decreases d,
    {
        d = d - 1;
    }
    if d == 0 {
        proof {
            lemma_no_extension(path@);
        }
        return "application/octet-stream".to_owned();
    }
    proof {
        lemma_extension_after(path@, d - 1);
    }
    let mut e: Vec<char> = Vec::new();
    let mut i: usize = d;
    while i < n
        invariant
            d <= i <= n,
            chars@ == path@,
            n == path@.len(),
            e@ == path@.subrange(d as int, i as int).map_values(|c: char| ascii_lower(c)),
        decreases n - i,
    {
        e.push(lower_char(chars[i]));
        assert(path@.subrange(d as int, i + 1) =~= path@.subrange(d as int, i as int).push(
            path@[i as int],
        ));
        assert(e@ =~= path@.subrange(d as int, i + 1).map_values(|c: char| ascii_lower(c)));
        i = i + 1;
    }
    if is_extension(&e, "html") || is_extension(&e, "htm") {
        "text/html".to_owned()
    } else if is_extension(&e, "css") {
        "text/css".to_owned()
    } else if is_extension(&e, "js") {
        "application/javascript".to_owned()
    } else if is_extension(&e, "json") {
        "application/json".to_owned()
    } else if is_extension(&e, "png") {
        "image/png".to_owned()
    } else if is_extension(&e, "jpg") || is_extension(&e, "jpeg") {
        "image/jpeg".to_owned()
    } else if is_extension(&e, "gif") {
        "image/gif".to_owned()
    } else if is_extension(&e, "svg") {
        "image/svg+xml".to_owned()
    } else if is_extension(&e, "ico") {
        "image/x-icon".to_owned()
    } else if is_extension(&e, "webp") {
        "image/webp".to_owned()
    } else if is_extension(&e, "txt") {
        "text/plain".to_owned()
    } else if is_extension(&e, "pdf") {
        "application/pdf".to_owned()
    } else if is_extension(&e, "wasm") {
        "application/wasm".to_owned()
    } else {
        "application/octet-stream".to_owned()
    }
}

} // verus!
