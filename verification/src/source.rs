use vstd::prelude::*;

verus! {

// ---------------------------------------------------------------------------
// Classification of the sitemap source identifier.  Loading itself —
// reading a file or fetching over HTTP — is the host's concern; the
// decision which of the two a given identifier names is made here.
// ---------------------------------------------------------------------------

/// Whether a source identifier names a network address: it begins with
/// the HTTP scheme marker.  Every other identifier is a local file
/// path.
pub open spec fn spec_is_remote(s: Seq<char>) -> bool {
    s.len() >= 4 && s.subrange(0, 4) == "http"@
}

/// Decides whether the sitemap source `src` is fetched over HTTP or
/// read from the local filesystem.
pub fn is_remote_source(src: &str) -> (b: bool)
    ensures
        b == spec_is_remote(src@),
{
    proof {
        reveal_strlit("http");
    }
    let n = src.unicode_len();
    if n < 4 {
        return false;
    }
    let matched = src.get_char(0) == 'h' && src.get_char(1) == 't' && src.get_char(2) == 't'
        && src.get_char(3) == 'p';
    if matched {
        proof {
            assert(src@.subrange(0, 4) =~= "http"@);
        }
        true
    } else {
        proof {
            assert(src@.subrange(0, 4)[0] == src@[0]);
            assert(src@.subrange(0, 4)[1] == src@[1]);
            assert(src@.subrange(0, 4)[2] == src@[2]);
            assert(src@.subrange(0, 4)[3] == src@[3]);
        }
        false
    }
}

} // verus!
