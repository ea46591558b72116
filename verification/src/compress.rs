use vstd::prelude::*;
use vstd::string::{StrSliceExecFns, StringExecFns};

verus! {

/// The compression methods a container entry may be written with.
#[derive(Clone, Copy, Debug, PartialEq, Eq, Structural)]
pub enum Compression {
    Stored,
    Deflate,
    Bzip2,
    Zstd,
}

impl Default for Compression {
    /// Deflate is the method used when none is asked for.
    fn default() -> (r: Self)
        ensures
            r == Compression::Deflate,
    {
        Compression::Deflate
    }
}

/// The Unicode scalar value of `c` with an ASCII capital letter folded to
/// its lower-case counterpart.
pub open spec fn lower_u32(c: char) -> u32 {
    if 'A' as u32 <= c as u32 && c as u32 <= 'Z' as u32 {
        (c as u32 + 32) as u32
    } else {
        c as u32
    }
}

/// `s` equals `t` once ASCII capitals in `s` are folded to lower case.
pub open spec fn lower_matches(s: Seq<char>, t: Seq<char>) -> bool {
    s.len() == t.len() && forall|i: int| 0 <= i < s.len() ==> lower_u32(s[i]) == (t[i] as u32)
}

/// Compares `s` against an already-lower-case keyword `t`, folding ASCII
/// capitals in `s`.
fn eq_folded(s: &str, t: &str) -> (r: bool)
    ensures
        r == lower_matches(s@, t@),
{
    let slen: usize = s.unicode_len();
    let tlen: usize = t.unicode_len();
    if slen != tlen {
        return false;
    }
    let mut i: usize = 0;
    while i < slen
        invariant
            slen == s@.len(),
            tlen == t@.len(),
            slen == tlen,
            i <= slen,
            forall|j: int| 0 <= j < i ==> lower_u32(s@[j]) == (t@[j] as u32),
        decreases slen - i,
    {
        let cs: u32 = s.get_char(i) as u32;
        let ct: u32 = t.get_char(i) as u32;
        let folded: u32 = if 65 <= cs && cs <= 90 {
            cs + 32
        } else {
            cs
        };
        proof {
            reveal_strlit("A");
            reveal_strlit("Z");
        }
        if folded != ct {
            return false;
        }
        i = i + 1;
    }
    true
}

impl Compression {
    /// Parses a method name, ignoring ASCII case; the reverse of the names
    /// the command line offers.
    pub fn from_str(s: &str) -> (r: Result<Compression, String>)
        ensures
            (r matches Ok(c) && c == Compression::Stored) <==> lower_matches(s@, "stored"@),
            (r matches Ok(c) && c == Compression::Deflate) <==> (lower_matches(s@, "deflate"@)
                || lower_matches(s@, "deflated"@)),
            (r matches Ok(c) && c == Compression::Bzip2) <==> lower_matches(s@, "bzip2"@),
            (r matches Ok(c) && c == Compression::Zstd) <==> lower_matches(s@, "zstd"@),
            r matches Err(m) ==> m@ == "Unsupported compression method: "@ + s@,
    {
        proof {
            reveal_strlit("stored");
            reveal_strlit("deflate");
            reveal_strlit("deflated");
            reveal_strlit("bzip2");
            reveal_strlit("zstd");
        }
        if eq_folded(s, "stored") {
            Ok(Compression::Stored)
        } else if eq_folded(s, "deflate") || eq_folded(s, "deflated") {
            Ok(Compression::Deflate)
        } else if eq_folded(s, "bzip2") {
            Ok(Compression::Bzip2)
        } else if eq_folded(s, "zstd") {
            Ok(Compression::Zstd)
        } else {
            Err(String::from_str("Unsupported compression method: ").concat(s))
        }
    }
}

} // verus!
