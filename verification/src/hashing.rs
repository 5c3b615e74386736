//! Hashes: of bytes, and of a query in its normalized form.
use vstd::prelude::*;
use vstd::string::*;
use vstd::utf8::*;

use crate::escaping;
use crate::fts_query;
use crate::text;

verus! {

/// The BLAKE3 hash of some bytes, in hexadecimal digits.
pub uninterp spec fn blake3_hex_of(bytes: Seq<u8>) -> Seq<char>;

/// What `str::to_lowercase` makes of a text.
pub uninterp spec fn lowercase_of(s: Seq<char>) -> Seq<char>;

/// `blake3::hash`, in hexadecimal (`Hash::to_hex`): a function of the bytes
/// alone.
#[verifier::external_body]
pub(crate) fn blake3_hex(bytes: &[u8]) -> (s: String)
    ensures
        s@ == blake3_hex_of(bytes@),
{
    blake3::hash(bytes).to_hex().to_string()
}

/// `str::to_lowercase`: a function of the text alone (Unicode's mapping to
/// lower case), under the name `lowercase_of`.
pub assume_specification[ str::to_lowercase ](s: &str) -> (r: String)
    ensures
        r@ == lowercase_of(s@),
;

/// Which characters of `s` are not whitespace.
pub open spec fn solid_marks(s: Seq<char>) -> Seq<bool> {
    s.map_values(|c: char| !fts_query::whitespace(c))
}

/// The words of `s`, as `marks` delimits them, with one space between two.
pub open spec fn spaced(s: Seq<char>, marks: Seq<bool>) -> Seq<char> {
    escaping::joined_by(fts_query::words_of(s, marks), ' ')
}

/// A query in the form in which it is recognised again: single spaces, lower
/// case.
pub open spec fn normalized(s: Seq<char>) -> Seq<char> {
    lowercase_of(spaced(s, solid_marks(s)))
}

/// The hash by which a query is recognised again.
pub open spec fn query_hash_of(s: Seq<char>) -> Seq<char> {
    blake3_hex_of(encode_utf8(normalized(s)))
}

/// The words of `s`, as `marks` delimits them, with one space between two.
pub fn single_spaced(s: &str, marks: &Vec<bool>) -> (r: String)
    requires
        marks.len() == s@.len(),
    ensures
        r@ == spaced(s@, marks@),
{
    let words = fts_query::split_words(s, marks);
    escaping::join_by(&words, ' ')
}

/// A query in the form in which it is recognised again.
pub fn normalize_query(s: &str) -> (r: String)
    ensures
        r@ == normalized(s@),
{
    let chars = text::chars_of(s);
    let mut marks: Vec<bool> = Vec::new();
    let mut i: usize = 0;
    while i < chars.len()
        invariant
            chars@ == s@,
            i <= chars.len(),
            marks@ == solid_marks(s@).take(i as int),
        decreases chars.len() - i,
    {
        marks.push(!chars[i].is_whitespace());
        proof {
            assert(solid_marks(s@).take(i + 1) =~= solid_marks(s@).take(i as int).push(
                solid_marks(s@)[i as int],
            ));
        }
        i += 1;
    }
    proof {
        assert(solid_marks(s@).take(i as int) =~= solid_marks(s@));
    }
    let joined = single_spaced(s, &marks);
    joined.as_str().to_lowercase()
}

/// The hash by which a query is recognised again.
pub fn query_hash(s: &str) -> (r: String)
    ensures
        r@ == query_hash_of(s@),
{
    let q = normalize_query(s);
    blake3_hex(q.as_str().as_bytes())
}

/// Queries that differ only in how their words are spaced have one hash.
pub proof fn law_spacing_does_not_matter(a: Seq<char>, b: Seq<char>)
    ensures
        fts_query::words_of(a, solid_marks(a)) == fts_query::words_of(b, solid_marks(b))
            ==> query_hash_of(a) == query_hash_of(b),
{
}

} // verus!
