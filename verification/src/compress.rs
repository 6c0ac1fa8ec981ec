//! What is worth compressing, and how.

use crate::outside::occurs_at;
use crate::text::{contains, contains_bytes, law_contains, starts_with};
use vstd::prelude::*;
use vstd::string::{is_ascii, StringSliceAdditionalSpecFns};

verus! {

/// A content type whose bodies shrink when compressed.
pub open spec fn compressible(content_type: Seq<u8>) -> bool {
    "text/".spec_bytes().is_prefix_of(content_type) || contains(content_type, "json".spec_bytes())
        || contains(content_type, "javascript".spec_bytes()) || contains(
        content_type,
        "xml".spec_bytes(),
    ) || contains(content_type, "svg".spec_bytes())
}

/// A way to compress.
#[derive(Debug, Clone, Copy, PartialEq, Eq, Structural)]
pub enum Encoding {
    Zstd,
    Brotli,
    Gzip,
}

impl Encoding {
    /// The encoding's name on the wire.
    pub open spec fn name(self) -> Seq<u8> {
        match self {
            Encoding::Zstd => "zstd".spec_bytes(),
            Encoding::Brotli => "br".spec_bytes(),
            Encoding::Gzip => "gzip".spec_bytes(),
        }
    }

    pub fn as_str(&self) -> (r: &'static str)
        ensures
            r.spec_bytes() == self.name(),
    {
        match self {
            Encoding::Zstd => "zstd",
            Encoding::Brotli => "br",
            Encoding::Gzip => "gzip",
        }
    }
}

/// The encoding that is taken of those that a text names: Zstandard before
/// Brotli before gzip.
pub open spec fn chosen_encoding(accepted: Seq<u8>) -> Option<Encoding> {
    if contains(accepted, "zstd".spec_bytes()) {
        Some(Encoding::Zstd)
    } else if contains(accepted, "br".spec_bytes()) {
        Some(Encoding::Brotli)
    } else if contains(accepted, "gzip".spec_bytes()) {
        Some(Encoding::Gzip)
    } else {
        None
    }
}

/// Decides on compression.
pub struct Compress {}

impl Compress {
    /// Whether bodies of a content type shrink when compressed.
    pub fn is_compressible(content_type: &str) -> (r: bool)
        ensures
            r == compressible(content_type.spec_bytes()),
    {
        let t = content_type.as_bytes();
        starts_with(t, "text/".as_bytes()) || contains_bytes(t, "json".as_bytes())
            || contains_bytes(t, "javascript".as_bytes()) || contains_bytes(t, "xml".as_bytes())
            || contains_bytes(t, "svg".as_bytes())
    }

    /// The encoding that is taken of those that a text names.
    pub fn choose_encoding(accepted: &str) -> (r: Option<Encoding>)
        ensures
            r == chosen_encoding(accepted.spec_bytes()),
    {
        let a = accepted.as_bytes();
        if contains_bytes(a, "zstd".as_bytes()) {
            Some(Encoding::Zstd)
        } else if contains_bytes(a, "br".as_bytes()) {
            Some(Encoding::Brotli)
        } else if contains_bytes(a, "gzip".as_bytes()) {
            Some(Encoding::Gzip)
        } else {
            None
        }
    }
}

// ── Laws ───────────────────────────────────────────────────────────────────

/// What shrinks: every content type that starts with `text/` or has `json`,
/// `javascript`, `xml` or `svg` anywhere in it.
pub proof fn law_compressible(front: Seq<u8>, back: Seq<u8>)
    ensures
        compressible("text/".spec_bytes() + back),
        compressible(front + "json".spec_bytes() + back),
        compressible(front + "javascript".spec_bytes() + back),
        compressible(front + "xml".spec_bytes() + back),
        compressible(front + "svg".spec_bytes() + back),
{
    assert("text/".spec_bytes().is_prefix_of("text/".spec_bytes() + back));
    law_contains(front, "json".spec_bytes(), back, front);
    law_contains(front, "javascript".spec_bytes(), back, front);
    law_contains(front, "xml".spec_bytes(), back, front);
    law_contains(front, "svg".spec_bytes(), back, front);
}

/// Nothing else shrinks.
pub proof fn law_incompressible(content_type: Seq<u8>)
    requires
        !"text/".spec_bytes().is_prefix_of(content_type),
        forall|i: int|
            !(#[trigger] occurs_at(content_type, "json".spec_bytes(), i)) && !occurs_at(
                content_type,
                "javascript".spec_bytes(),
                i,
            ) && !occurs_at(content_type, "xml".spec_bytes(), i) && !occurs_at(
                content_type,
                "svg".spec_bytes(),
                i,
            ),
    ensures
        !compressible(content_type),
{
    assert forall|i: int| !occurs_at(content_type, "javascript".spec_bytes(), i) by {
        assert(!occurs_at(content_type, "json".spec_bytes(), i));
    }
    assert forall|i: int| !occurs_at(content_type, "xml".spec_bytes(), i) by {
        assert(!occurs_at(content_type, "json".spec_bytes(), i));
    }
    assert forall|i: int| !occurs_at(content_type, "svg".spec_bytes(), i) by {
        assert(!occurs_at(content_type, "json".spec_bytes(), i));
    }
}

/// Of the encodings that are accepted Zstandard is taken before Brotli and Brotli
/// before gzip; one is taken exactly where one is accepted, and it is accepted.
pub proof fn law_encoding_taken(accepted: Seq<u8>)
    ensures
        chosen_encoding(accepted) == Some(Encoding::Zstd) <==> contains(
            accepted,
            "zstd".spec_bytes(),
        ),
        chosen_encoding(accepted) == Some(Encoding::Brotli) <==> contains(
            accepted,
            "br".spec_bytes(),
        ) && !contains(accepted, "zstd".spec_bytes()),
        chosen_encoding(accepted) == Some(Encoding::Gzip) <==> contains(
            accepted,
            "gzip".spec_bytes(),
        ) && !contains(accepted, "br".spec_bytes()) && !contains(accepted, "zstd".spec_bytes()),
        chosen_encoding(accepted) matches Some(e) ==> contains(accepted, e.name()),
{
}

/// Where only one encoding is accepted, by its own name, that one is taken.
pub proof fn law_named_encoding(encoding: Encoding)
    ensures
        chosen_encoding(encoding.name()) == Some(encoding),
{
    lemma_encoding_names();
    let nothing = Seq::<u8>::empty();
    assert(nothing + encoding.name() + nothing =~= encoding.name());
    law_contains(nothing, encoding.name(), nothing, nothing);
    law_encoding_taken(encoding.name());
}

proof fn lemma_not_within(s: Seq<u8>, needle: Seq<u8>)
    requires
        needle.len() > 0,
        forall|i: int| 0 <= i <= s.len() - needle.len() ==> #[trigger] s[i] != needle[0],
    ensures
        !contains(s, needle),
{
    assert forall|i: int| !occurs_at(s, needle, i) by {
        if occurs_at(s, needle, i) {
            assert(s.subrange(i, i + needle.len())[0] == s[i]);
        }
    }
}

proof fn lemma_encoding_names()
    ensures
        !contains("br".spec_bytes(), "zstd".spec_bytes()),
        !contains("gzip".spec_bytes(), "zstd".spec_bytes()),
        !contains("gzip".spec_bytes(), "br".spec_bytes()),
{
    reveal_strlit("zstd");
    reveal_strlit("br");
    reveal_strlit("gzip");
    assert(is_ascii("zstd") && is_ascii("br") && is_ascii("gzip"));
    let z = "zstd".spec_bytes();
    let b = "br".spec_bytes();
    let g = "gzip".spec_bytes();
    assert(z.len() == 4 && b.len() == 2 && g.len() == 4);
    assert(g[0] == 103 && g[1] == 122 && g[2] == 105 && g[3] == 112 && z[0] == 122 && b[0] == 98);
    lemma_not_within(b, z);
    lemma_not_within(g, z);
    lemma_not_within(g, b);
}

} // verus!
