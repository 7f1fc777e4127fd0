//! Prefix tree charsets: how raw text maps onto a compact, dense code space.

use vstd::prelude::*;
use vstd::string::StrSliceExecFns;

verus! {

/// What `str::to_lowercase` returns for a given character sequence: the result
/// depends on the characters alone.
pub uninterp spec fn lower_of(s: Seq<char>) -> Seq<char>;

/// Relies on `str::to_lowercase`: returns the lowercase equivalent of the
/// string, a function of its characters alone.
#[verifier::external_body]
fn to_lowercase_string(s: &str) -> (r: String)
    ensures
        r@ == lower_of(s@),
{
    s.to_lowercase()
}

/// Relies on `String::push`: appends one character to the end of the string.
#[verifier::external_body]
pub(crate) fn push_char(s: &mut String, c: char)
    ensures
        final(s)@ == old(s)@.push(c),
{
    s.push(c);
}

/// The result of folding every (leftmost, non-overlapping) two-character
/// sequence `qu` into the single character `q`.
pub open spec fn fold_qu(s: Seq<char>) -> Seq<char>
    decreases s.len(),
{
    if s.len() >= 2 && s[0] == 'q' && s[1] == 'u' {
        seq!['q'] + fold_qu(s.skip(2))
    } else if s.len() >= 1 {
        seq![s[0]] + fold_qu(s.skip(1))
    } else {
        Seq::empty()
    }
}

/// Replaces every occurrence of `qu` by `q`, scanning left to right.
fn replace_qu(s: &str) -> (r: String)
    ensures
        r@ == fold_qu(s@),
{
    let n = s.unicode_len();
    let mut out = String::new();
    let mut i: usize = 0;
    proof {
        assert(s@.skip(0) =~= s@);
        assert(out@ + fold_qu(s@) =~= fold_qu(s@));
    }
    while i < n
        invariant
            n == s@.len(),
            i <= n,
            fold_qu(s@) == out@ + fold_qu(s@.skip(i as int)),
        decreases n - i,
    {
        let c = s.get_char(i);
        let ghost prev = out@;
        if c == 'q' && i + 1 < n && s.get_char(i + 1) == 'u' {
            push_char(&mut out, 'q');
            proof {
                let tail = s@.skip(i as int);
                assert(tail.len() >= 2 && tail[0] == 'q' && tail[1] == 'u');
                assert(tail.skip(2) =~= s@.skip(i + 2));
                assert(prev + fold_qu(tail) =~= out@ + fold_qu(s@.skip(i + 2)));
            }
            i = i + 2;
        } else {
            push_char(&mut out, c);
            proof {
                let tail = s@.skip(i as int);
                assert(tail.len() >= 1 && tail[0] == c);
                assert(!(tail.len() >= 2 && tail[0] == 'q' && tail[1] == 'u'));
                assert(tail.skip(1) =~= s@.skip(i + 1));
                assert(prev + fold_qu(tail) =~= out@ + fold_qu(s@.skip(i + 1)));
            }
            i = i + 1;
        }
    }
    proof {
        assert(s@.skip(n as int) =~= Seq::<char>::empty());
        assert(out@ + fold_qu(s@.skip(n as int)) =~= out@);
    }
    out
}

/// Every character of `s` has a code in charset `C`.
pub open spec fn all_mappable<C: Charset>(s: Seq<char>) -> bool {
    forall|j: int| 0 <= j < s.len() ==> (#[trigger] C::spec_to_code(s[j])) is Some
}

/// The code sequence of `s` under charset `C` (meaningful when every
/// character is mappable).
pub open spec fn codes_of<C: Charset>(s: Seq<char>) -> Seq<u8> {
    Seq::new(s.len(), |j: int| C::spec_to_code(s[j]).unwrap())
}

/// Describes a type that maps character codes to `usize`.
pub trait CharsetMap: Sized {
    /// Which codes the map can hold.
    spec fn spec_valid(ch: u8) -> bool;

    /// The value stored under a code; `None` outside the charset or when unset.
    spec fn spec_get(&self, ch: u8) -> Option<usize>;

    /// Create a map with no entries.
    fn empty() -> (r: Self)
        ensures
            forall|c: u8| r.spec_get(c) is None,
    ;

    /// Get a value from map using supplied character as a key.
    fn get(&self, ch: u8) -> (r: Option<usize>)
        ensures
            r == self.spec_get(ch),
    ;

    /// Inserts a value into map using supplied character as a key.
    fn insert(&mut self, ch: u8, val: usize)
        requires
            Self::spec_valid(ch),
        ensures
            final(self).spec_get(ch) == Some(val),
            forall|c: u8| c != ch ==> final(self).spec_get(c) == old(self).spec_get(c),
    ;

    /// Copies map contents from another map.
    fn copy_from(&mut self, other: &Self)
        ensures
            forall|c: u8| final(self).spec_get(c) == other.spec_get(c),
    ;
}

/// Describes a prefix charset type: a normalization of raw words and a partial
/// mapping from characters to a dense code space.
pub trait Charset: Sized {
    /// The character map type.
    type PrefixCharMap: CharsetMap;

    /// The code of a character, `None` when the character is outside the charset.
    spec fn spec_to_code(ch: char) -> Option<u8>;

    /// The canonical form of a word before indexing.
    spec fn spec_normalize(s: Seq<char>) -> Seq<char>;

    /// Gets a copy of supplied word with special characters removed.
    fn trim_special_characters(word: &str) -> (r: String)
        ensures
            r@ == Self::spec_normalize(word@),
    ;

    /// Convert a character to a prefix charset compatible character if possible.
    fn to_prefix_char(ch: char) -> (r: Option<u8>)
        ensures
            r == Self::spec_to_code(ch),
            r matches Some(c) ==> Self::PrefixCharMap::spec_valid(c),
    ;
}

/// An english alphabet charset: codes 0 through 25 for the letters `a` to `z`,
/// with `qu` collapsed to `q` by normalization.
#[derive(Debug, Clone, Copy)]
pub struct EnglishAlpha;

impl Charset for EnglishAlpha {
    type PrefixCharMap = EnglishAlphaMap;

    open spec fn spec_to_code(ch: char) -> Option<u8> {
        if 'a' <= ch && ch <= 'z' {
            Some((ch as u8 - 'a' as u8) as u8)
        } else if 'A' <= ch && ch <= 'Z' {
            Some((ch as u8 - 'A' as u8) as u8)
        } else {
            None
        }
    }

    open spec fn spec_normalize(s: Seq<char>) -> Seq<char> {
        fold_qu(lower_of(s))
    }

    fn trim_special_characters(word: &str) -> (r: String) {
        let lower = to_lowercase_string(word);
        replace_qu(lower.as_str())
    }

    fn to_prefix_char(ch: char) -> (r: Option<u8>) {
        if 'a' <= ch && ch <= 'z' {
            Some(ch as u8 - 'a' as u8)
        } else if 'A' <= ch && ch <= 'Z' {
            Some(ch as u8 - 'A' as u8)
        } else {
            None
        }
    }
}

/// An english alphabet charset map: one slot for each of the 26 letter codes.
#[derive(Debug, Clone, Copy)]
pub struct EnglishAlphaMap(pub [Option<usize>; 26]);

impl CharsetMap for EnglishAlphaMap {
    open spec fn spec_valid(ch: u8) -> bool {
        ch < 26
    }

    open spec fn spec_get(&self, ch: u8) -> Option<usize> {
        if ch < 26 {
            self.0@[ch as int]
        } else {
            None
        }
    }

    fn empty() -> (r: Self) {
        let r = EnglishAlphaMap([None; 26]);
        proof {
            assert(forall|c: u8| c < 26 ==> r.0@[c as int] is None);
        }
        r
    }

    fn get(&self, ch: u8) -> (r: Option<usize>) {
        if ch < 26 {
            self.0[ch as usize]
        } else {
            None
        }
    }

    fn insert(&mut self, ch: u8, val: usize) {
        self.0[ch as usize] = Some(val);
    }

    fn copy_from(&mut self, other: &Self) {
        let mut i: usize = 0;
        while i < 26
            invariant
                i <= 26,
                forall|j: int| 0 <= j < i ==> self.0@[j] == other.0@[j],
        decreases 26 - i,
        {
            self.0[i] = other.0[i];
            i = i + 1;
        }
    }
}

} // verus!
