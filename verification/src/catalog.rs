//! The pack catalog: which archive a name stands for, whether its bytes are the
//! published ones, and which of its members is wanted.
use vstd::prelude::*;

use crate::error::{invalid, Error, ErrorView};
use crate::text::{chars_of, dec, push_dec, quoted, quoted_text, same_chars, same_text, texts_view};

verus! {

/// A published archive.
#[derive(Debug, Clone, PartialEq)]
pub struct Pack {
    pub name: String,
    pub download_urls: Vec<String>,
    pub sha1_checksum: String,
}

/// A [`Pack`] by its texts.
#[verifier::ext_equal]
pub struct PackView {
    pub name: Seq<char>,
    pub download_urls: Seq<Seq<char>>,
    pub sha1_checksum: Seq<char>,
}

impl View for Pack {
    type V = PackView;

    open spec fn view(&self) -> PackView {
        PackView {
            name: self.name@,
            download_urls: texts_view(self.download_urls@),
            sha1_checksum: self.sha1_checksum@,
        }
    }
}

/// All published archives.
#[derive(Debug, Clone, PartialEq)]
pub struct Catalog {
    pub packs: Vec<Pack>,
}

/// The first pack from `i` on with a name.
pub open spec fn pack_named(packs: Seq<Pack>, name: Seq<char>, i: int) -> Option<int>
    decreases packs.len() - i,
{
    if i < 0 || i >= packs.len() {
        None
    } else if packs[i].name@ == name {
        Some(i)
    } else {
        pack_named(packs, name, i + 1)
    }
}

impl Catalog {
    /// The first pack with a name.
    pub fn get(&self, name: &str) -> (r: Result<&Pack, Error>)
        ensures
            match (r, pack_named(self.packs@, name@, 0)) {
                (Ok(pack), Some(i)) => *pack == self.packs@[i],
                (Err(e), None) => e@ == ErrorView::Invalid(
                    "pack "@ + quoted_text(name@) + " is not in the catalog"@,
                ),
                _ => false,
            },
    {
        let mut i: usize = 0;
        while i < self.packs.len()
            invariant
                i <= self.packs@.len(),
                pack_named(self.packs@, name@, 0) == pack_named(self.packs@, name@, i as int),
            decreases self.packs@.len() - i,
        {
            if same_text(self.packs[i].name.as_str(), name) {
                return Ok(&self.packs[i]);
            }
            i += 1;
        }
        let mut s: String = String::from_str("pack ");
        s.append(quoted(name).as_str());
        s.append(" is not in the catalog");
        Err(Error::Invalid(s))
    }
}

/// The SHA-1 digest of bytes.
pub uninterp spec fn sha1_of(bytes: Seq<u8>) -> Seq<u8>;

/// Wraps `sha1::Sha1::digest`: the 20 bytes of the SHA-1 digest, which depend on the
/// bytes alone. The algorithm itself is only named. It counts bits in 64 bits, hence
/// the bound.
#[verifier::external_body]
fn sha1(bytes: &[u8]) -> (r: Vec<u8>)
    requires
        bytes@.len() < 0x2000_0000_0000_0000,
    ensures
        r@ == sha1_of(bytes@),
        r@.len() == 20,
{
    <sha1::Sha1 as sha1::Digest>::digest(bytes).to_vec()
}

/// The character of a hexadecimal digit.
pub open spec fn hex_char(d: int) -> char {
    if d < 10 {
        (48 + d) as char
    } else {
        (87 + d) as char
    }
}

/// Bytes as hexadecimal digits, two each.
pub open spec fn hex_of(bytes: Seq<u8>) -> Seq<char>
    decreases bytes.len(),
{
    if bytes.len() == 0 {
        Seq::empty()
    } else {
        hex_of(bytes.drop_last()).push(hex_char(bytes.last() as int / 16)).push(
            hex_char(bytes.last() as int % 16),
        )
    }
}

fn digit(d: u8) -> (r: char)
    requires
        d < 16,
    ensures
        r == hex_char(d as int),
{
    if d < 10 {
        (48 + d) as char
    } else {
        (87 + d) as char
    }
}

/// Bytes as hexadecimal digits.
pub fn to_hex(bytes: &[u8]) -> (r: String)
    ensures
        r@ == hex_of(bytes@),
{
    let mut s: String = String::new();
    let mut i: usize = 0;
    assert(s@ =~= hex_of(bytes@.take(0)));
    while i < bytes.len()
        invariant
            i <= bytes@.len(),
            s@ == hex_of(bytes@.take(i as int)),
        decreases bytes@.len() - i,
    {
        assert(bytes@.take(i + 1).drop_last() =~= bytes@.take(i as int));
        let b: u8 = bytes[i];
        s.push(digit(b / 16));
        s.push(digit(b % 16));
        i += 1;
    }
    assert(bytes@.take(i as int) =~= bytes@);
    s
}

proof fn lemma_hex_length(bytes: Seq<u8>)
    ensures
        hex_of(bytes).len() == 2 * bytes.len(),
    decreases bytes.len(),
{
    if bytes.len() > 0 {
        lemma_hex_length(bytes.drop_last());
    }
}

/// Different bytes have different hexadecimal digits.
pub proof fn lemma_hex_injective(a: Seq<u8>, b: Seq<u8>)
    requires
        hex_of(a) == hex_of(b),
    ensures
        a == b,
    decreases a.len(),
{
    lemma_hex_length(a);
    lemma_hex_length(b);
    if a.len() > 0 {
        let x = a.last() as int;
        let y = b.last() as int;
        let s = hex_of(a);
        let p = hex_of(a.drop_last());
        let q = hex_of(b.drop_last());
        lemma_hex_length(a.drop_last());
        lemma_hex_length(b.drop_last());
        assert(s[s.len() - 1] == hex_char(x % 16) && s[s.len() - 1] == hex_char(y % 16));
        assert(s[s.len() - 2] == hex_char(x / 16) && s[s.len() - 2] == hex_char(y / 16));
        lemma_hex_char(x % 16, y % 16);
        lemma_hex_char(x / 16, y / 16);
        assert(p =~= s.take(s.len() - 2));
        assert(q =~= s.take(s.len() - 2));
        lemma_hex_injective(a.drop_last(), b.drop_last());
        assert(a =~= a.drop_last().push(a.last()));
        assert(b =~= b.drop_last().push(b.last()));
    } else {
        assert(a =~= b);
    }
}

proof fn lemma_hex_char(a: int, b: int)
    requires
        0 <= a < 16,
        0 <= b < 16,
        hex_char(a) == hex_char(b),
    ensures
        a == b,
{
}

/// The SHA-1 digest of bytes in hexadecimal.
pub fn sha1_hex(bytes: &[u8]) -> (r: String)
    requires
        bytes@.len() < 0x2000_0000_0000_0000,
    ensures
        r@ == hex_of(sha1_of(bytes@)),
{
    to_hex(sha1(bytes).as_slice())
}

/// Where a pack's archive is to be fetched from, and whether fetched bytes are the
/// published ones.
impl Pack {
    /// Whether bytes are those of the archive.
    pub open spec fn is_archive(self, bytes: Seq<u8>) -> bool {
        hex_of(sha1_of(bytes)) == self.sha1_checksum@
    }

    /// Whether an archive that is already there can be kept.
    pub fn is_current(&self, bytes: &[u8]) -> (r: bool)
        requires
            bytes@.len() < 0x2000_0000_0000_0000,
        ensures
            r == self.is_archive(bytes@),
    {
        same_text(sha1_hex(bytes).as_str(), self.sha1_checksum.as_str())
    }

    /// Where the archive is to be fetched from: the first address.
    pub fn url(&self) -> (r: Result<&str, Error>)
        ensures
            match r {
                Ok(url) => self@.download_urls.len() > 0 && url@ == self@.download_urls[0],
                Err(e) => self@.download_urls.len() == 0 && e@ == ErrorView::Invalid(
                    "pack has no download URL"@,
                ),
            },
    {
        if self.download_urls.len() == 0 {
            return Err(invalid("pack has no download URL"));
        }
        Ok(self.download_urls[0].as_str())
    }

    /// Accepts fetched bytes if they are the published ones, and gives their digest.
    pub fn accept(&self, url: &str, bytes: &[u8]) -> (r: Result<String, Error>)
        requires
            bytes@.len() < 0x2000_0000_0000_0000,
        ensures
            match r {
                Ok(got) => self.is_archive(bytes@) && got@ == self.sha1_checksum@,
                Err(e) => !self.is_archive(bytes@) && e@ == ErrorView::Invalid(
                    "sha1 mismatch for "@ + url@ + ": "@ + hex_of(sha1_of(bytes@)) + " != "@
                        + self.sha1_checksum@,
                ),
            },
    {
        let got: String = sha1_hex(bytes);
        if same_text(got.as_str(), self.sha1_checksum.as_str()) {
            return Ok(got);
        }
        let mut s: String = String::from_str("sha1 mismatch for ");
        s.append(url);
        s.append(": ");
        s.append(got.as_str());
        s.append(" != ");
        s.append(self.sha1_checksum.as_str());
        Err(Error::Invalid(s))
    }
}

/// Whether a member of an archive that is already there, with the size that is given for
/// it, can be kept: it can if it has the size of the member.
pub fn keeps_member(existing: Option<u64>, size: u64) -> (r: bool)
    ensures
        r == (existing == Some(size)),
{
    match existing {
        Some(n) => n == size,
        None => false,
    }
}

/// Whether a text ends in another.
pub open spec fn ends_in(text: Seq<char>, suffix: Seq<char>) -> bool {
    suffix.len() <= text.len() && text.skip(text.len() - suffix.len()) == suffix
}

/// Whether a member's name ends in a suffix; a name that is no text does not.
pub open spec fn member_matches(name: Option<String>, suffix: Seq<char>) -> bool {
    name is Some && ends_in(name->0@, suffix)
}

fn matches_suffix(name: &Option<String>, suffix: &Vec<char>) -> (r: bool)
    ensures
        r == member_matches(*name, suffix@),
{
    match name {
        None => false,
        Some(name) => {
            let text: Vec<char> = chars_of(name.as_str());
            if suffix.len() > text.len() {
                return false;
            }
            let from: usize = text.len() - suffix.len();
            let tail: &[char] = vstd::slice::slice_subrange(text.as_slice(), from, text.len());
            assert(tail@ =~= text@.skip(from as int));
            same_chars(tail, suffix.as_slice())
        },
    }
}

/// How many of the first `n` members have a suffix.
pub open spec fn matching(members: Seq<Option<String>>, suffix: Seq<char>, n: nat) -> nat
    decreases n,
{
    if n == 0 {
        0
    } else {
        matching(members, suffix, (n - 1) as nat) + (if member_matches(
            members[n - 1],
            suffix,
        ) {
            1nat
        } else {
            0
        })
    }
}

/// How many members come into question: those with the suffix, or all where none has
/// it.
pub open spec fn candidates(members: Seq<Option<String>>, suffix: Seq<char>) -> nat {
    let n = matching(members, suffix, members.len());
    if n == 0 {
        members.len()
    } else {
        n
    }
}

/// Picks the one member of a pack with the expected suffix.
///
/// Some pack generations use a different file name, so a suffix that no member has falls
/// back to "the only file in the pack" rather than failing.
pub fn pick(members: &[Option<String>], suffix: &str) -> (r: Result<usize, Error>)
    ensures
        match r {
            Ok(i) => {
                &&& candidates(members@, suffix@) == 1
                &&& i < members@.len()
                &&& member_matches(members@[i as int], suffix@) || members@.len() == 1
            },
            Err(e) => {
                &&& candidates(members@, suffix@) != 1
                &&& e@ == ErrorView::Invalid(
                    "expected one "@ + suffix@ + " artifact in the pack, found "@ + dec(
                        candidates(members@, suffix@),
                    ),
                )
            },
        },
{
    let wanted: Vec<char> = chars_of(suffix);
    let mut found: usize = 0;
    let mut last: usize = 0;
    let mut i: usize = 0;
    while i < members.len()
        invariant
            i <= members@.len(),
            wanted@ == suffix@,
            found == matching(members@, suffix@, i as nat),
            found <= i,
            found > 0 ==> last < i && member_matches(members@[last as int], suffix@),
        decreases members@.len() - i,
    {
        if matches_suffix(&members[i], &wanted) {
            found += 1;
            last = i;
        }
        i += 1;
    }
    let count: usize = if found == 0 {
        members.len()
    } else {
        found
    };
    if count != 1 {
        let mut s: String = String::from_str("expected one ");
        s.append(suffix);
        s.append(" artifact in the pack, found ");
        push_dec(&mut s, count as u64);
        return Err(Error::Invalid(s));
    }
    if found == 0 {
        Ok(0)
    } else {
        Ok(last)
    }
}

} // verus!
