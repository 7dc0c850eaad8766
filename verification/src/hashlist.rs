//! Fingerprints of text lines, and ordered lists of them with their
//! canonical text form.
//!
//! A fingerprint is the CRC-32 checksum (IEEE polynomial) of a line's bytes.
//! It stands for the line in every comparison, so two lines with the same
//! checksum are taken for the same line: a fingerprint is a compact proxy,
//! not a cryptographic digest.

use crate::decimal::{
    all_digits, decimal_digits, decimal_value, is_digit, lemma_bad_prefix, lemma_decimal_digits,
    parse_decimal, push_digit, render_decimal,
};
use crate::text::{
    free_of, join_with, lemma_split_join, lemma_split_parts, lemma_split_prefix, split_on,
};
use vstd::prelude::*;
use vstd::slice::slice_subrange;
use vstd::std_specs::iter::IteratorSpec;
use vstd::utf8::encode_utf8;

verus! {

/// The CRC-32 checksum, with the IEEE polynomial, of a sequence of bytes.
pub uninterp spec fn checksum_ieee(bytes: Seq<u8>) -> u32;

/// `crc::crc32::checksum_ieee` computes the CRC-32 checksum of the bytes it is
/// given and depends on nothing else. Of no bytes at all the checksum is 0:
/// the register is inverted before the first byte and after the last.
pub assume_specification[ crc::crc32::checksum_ieee ](bytes: &[u8]) -> (sum: u32)
    ensures
        sum == checksum_ieee(bytes@),
        bytes@.len() == 0 ==> sum == 0,
;

/// Joins the strings with a newline between neighbours.
///
/// `itertools::Itertools::join` writes the first item, then for each further
/// item the separator and the item; of no items it makes the empty string.
#[verifier::external_body]
fn join_lines(parts: &Vec<String>) -> (joined: String)
    ensures
        joined@ == join_with(parts@.map_values(|part: String| part@), '\n'),
{
    itertools::Itertools::join(&mut parts.iter(), "\n")
}

/// The 32-bit fingerprint of one line of text, held in its unsigned form.
#[derive(Clone, Copy, Debug, PartialEq, Eq, Structural)]
pub struct Hash(pub u32);

/// A string that is no unsigned 32-bit decimal literal where one was expected.
#[derive(Clone, Copy, Debug, PartialEq, Eq, Structural)]
pub struct MalformedFingerprint {
    /// The place of the first offending segment among the newline-separated
    /// segments of the input, counted from zero.
    pub line: usize,
}

/// An ordered list of fingerprints, one per line of a text, in line order.
#[derive(Debug)]
pub struct HashList {
    hashes: Vec<Hash>,
}

/// The two's-complement reading of an unsigned 32-bit value.
pub open spec fn signed_of(u: u32) -> i32 {
    if u < 0x8000_0000 {
        u as i32
    } else {
        (u - 0x1_0000_0000) as i32
    }
}

/// The unsigned 32-bit value whose two's-complement reading is `s`.
pub open spec fn unsigned_of(s: i32) -> u32 {
    if s >= 0 {
        s as u32
    } else {
        (s + 0x1_0000_0000) as u32
    }
}

/// The fingerprint of a line, given as its bytes.
pub open spec fn fingerprint_of(line: Seq<u8>) -> Hash {
    Hash(checksum_ieee(line))
}

/// The fingerprints of the newline-separated lines of a text, given as its
/// bytes. A text that ends in a newline has an empty last line.
pub open spec fn text_fingerprints(text: Seq<u8>) -> Seq<Hash> {
    split_on(text, 10u8).map_values(|line: Seq<u8>| fingerprint_of(line))
}

/// The decimal literal of each fingerprint.
pub open spec fn canonical_parts(hashes: Seq<Hash>) -> Seq<Seq<char>> {
    hashes.map_values(|hash: Hash| decimal_digits(hash.0 as nat))
}

/// The canonical string of a list: each fingerprint as an unsigned decimal
/// literal, in list order, with a newline between neighbours.
pub open spec fn canonical_string(hashes: Seq<Hash>) -> Seq<char> {
    join_with(canonical_parts(hashes), '\n')
}

/// Every newline-separated segment of `s` is an unsigned 32-bit decimal
/// literal.
pub open spec fn well_formed(s: Seq<char>) -> bool {
    forall|i: int|
        0 <= i < split_on(s, '\n').len() ==> parse_decimal(#[trigger] split_on(s, '\n')[i])
            is Some
}

/// Segment `k` of `s` is the first that is no unsigned 32-bit decimal literal.
pub open spec fn first_malformed(s: Seq<char>, k: int) -> bool {
    &&& 0 <= k < split_on(s, '\n').len()
    &&& parse_decimal(split_on(s, '\n')[k]) is None
    &&& forall|i: int| 0 <= i < k ==> parse_decimal(#[trigger] split_on(s, '\n')[i]) is Some
}

/// The list that a well-formed canonical string stands for: the value of
/// each segment, in order.
pub open spec fn decoded(s: Seq<char>) -> Seq<Hash> {
    split_on(s, '\n').map_values(|segment: Seq<char>| Hash(decimal_value(segment) as u32))
}

/// Reading a fingerprint as signed and the result as unsigned again gives the
/// fingerprint back, and so does the other way round: the two readings are of
/// the same 32 bits, and `signed_of` is the cast that keeps them.
pub proof fn lemma_signed_round_trip(u: u32, s: i32)
    ensures
        unsigned_of(signed_of(u)) == u,
        signed_of(unsigned_of(s)) == s,
        signed_of(u) == u as i32,
        unsigned_of(s) == s as u32,
{
    assert(u < 0x8000_0000 ==> u as i32 == u) by (bit_vector);
    assert(u >= 0x8000_0000 ==> u as i32 == u - 0x1_0000_0000) by (bit_vector);
    assert(s >= 0 ==> s as u32 == s) by (bit_vector);
    assert(s < 0 ==> s as u32 == s + 0x1_0000_0000) by (bit_vector);
}

/// The same bytes always have the same fingerprint.
pub proof fn lemma_fingerprint_deterministic(first: Seq<u8>, second: Seq<u8>)
    requires
        first == second,
    ensures
        fingerprint_of(first) == fingerprint_of(second),
{
}

/// The canonical string of a list that is not empty is well formed and
/// stands for that list: writing a list and reading it back changes nothing.
///
/// The empty list is left out: its canonical string is the empty string,
/// which reads as one empty segment and so as no list at all.
pub proof fn lemma_canonical_round_trip(hashes: Seq<Hash>)
    requires
        hashes.len() > 0,
    ensures
        well_formed(canonical_string(hashes)),
        decoded(canonical_string(hashes)) == hashes,
{
    let parts = canonical_parts(hashes);
    assert forall|i: int| 0 <= i < parts.len() implies free_of(#[trigger] parts[i], '\n') by {
        lemma_decimal_digits(hashes[i].0 as nat);
    }
    lemma_split_join(parts, '\n');
    let text = canonical_string(hashes);
    assert(split_on(text, '\n') == parts);
    assert forall|i: int| 0 <= i < parts.len() implies parse_decimal(#[trigger] parts[i]) == Some(
        hashes[i].0,
    ) by {
        lemma_decimal_digits(hashes[i].0 as nat);
    }
    assert(decoded(text) =~= hashes);
}

/// A string that was read as a list has exactly that list's number of
/// segments, so a list that was read is never empty.
pub proof fn lemma_decoded_len(s: Seq<char>)
    ensures
        decoded(s).len() == split_on(s, '\n').len(),
        decoded(s).len() >= 1,
{
    lemma_split_parts(s, '\n');
}

/// The fingerprint of a line of text: the CRC-32 checksum of its bytes. The
/// fingerprint of the empty line is 0.
pub fn fingerprint(line: &[u8]) -> (hash: Hash)
    ensures
        hash == fingerprint_of(line@),
        line@.len() == 0 ==> hash == Hash(0),
{
    Hash(crc::crc32::checksum_ieee(line))
}

impl Hash {
    /// Wraps an unsigned 32-bit checksum value.
    pub fn new(value: u32) -> (hash: Hash)
        ensures
            hash == Hash(value),
    {
        Hash(value)
    }

    /// The unsigned value of the fingerprint.
    pub fn value(self) -> (value: u32)
        ensures
            value == self.0,
    {
        self.0
    }

    /// Reinterprets the fingerprint's 32 bits as a signed integer.
    pub fn to_signed(self) -> (s: i32)
        ensures
            s == signed_of(self.0),
    {
        if self.0 < 0x8000_0000 {
            self.0 as i32
        } else {
            let low: u32 = self.0 - 0x8000_0000;
            low as i32 + i32::MIN
        }
    }

    /// Reinterprets a signed 32-bit integer's bits as a fingerprint.
    pub fn from_signed(s: i32) -> (hash: Hash)
        ensures
            hash == Hash(unsigned_of(s)),
    {
        if s >= 0 {
            Hash(s as u32)
        } else {
            let low: i32 = s - i32::MIN;
            Hash(low as u32 + 0x8000_0000)
        }
    }

    /// The fingerprint as an unsigned decimal literal.
    pub fn to_canonical_string(self) -> (text: String)
        ensures
            text@ == decimal_digits(self.0 as nat),
    {
        render_decimal(self.0)
    }

    /// Reads an unsigned 32-bit decimal literal: one or more ASCII digits and
    /// nothing else, with a value that fits in 32 bits.
    pub fn parse_canonical_string(s: &str) -> (parsed: Result<Hash, MalformedFingerprint>)
        ensures
            match parsed {
                Ok(hash) => parse_decimal(s@) == Some(hash.0),
                Err(e) => parse_decimal(s@) is None && e.line == 0,
            },
    {
        let mut chars = s.chars();
        let mut value: u32 = 0;
        let mut started = false;
        let ghost mut seen: Seq<char> = Seq::empty();
        proof {
            broadcast use vstd::string::group_string_axioms;

            assert(chars.remaining() == s@);
        }
        loop
            invariant
                chars.obeys_prophetic_iter_laws(),
                chars.decrease() is Some,
                seen + chars.remaining() == s@,
                all_digits(seen),
                decimal_value(seen) == value,
                started == (seen.len() > 0),
            decreases chars.decrease()->0,
        {
            let ghost before = chars.remaining();
            match chars.next() {
                None => {
                    proof {
                        broadcast use vstd::string::group_string_axioms;

                        assert(before.len() == 0);
                        assert(seen == s@);
                    }
                    if started {
                        return Ok(Hash(value));
                    } else {
                        return Err(MalformedFingerprint { line: 0 });
                    }
                },
                Some(c) => {
                    proof {
                        broadcast use vstd::string::group_string_axioms;

                        assert(before.len() > 0);
                        assert(seen.push(c) + chars.remaining() == s@);
                        assert(seen.push(c).drop_last() == seen);
                        assert(s@.subrange(0, seen.len() + 1 as int) == seen.push(c));
                    }
                    match push_digit(value, c) {
                        None => {
                            proof {
                                assert(!is_digit(seen.push(c)[seen.len() as int])
                                    || decimal_value(seen.push(c)) > u32::MAX);
                                lemma_bad_prefix(seen.push(c), s@);
                            }
                            return Err(MalformedFingerprint { line: 0 });
                        },
                        Some(next) => {
                            value = next;
                            started = true;
                            proof {
                                seen = seen.push(c);
                            }
                        },
                    }
                },
            }
        }
    }
}

/// The canonical string of a run of fingerprints: each as an unsigned
/// decimal literal, in order, with a newline between neighbours and none at
/// the end.
pub fn render_canonical(hashes: &[Hash]) -> (text: String)
    ensures
        text@ == canonical_string(hashes@),
{
    let mut parts: Vec<String> = Vec::new();
    let mut i: usize = 0;
    while i < hashes.len()
        invariant
            i <= hashes@.len(),
            parts@.len() == i,
            parts@.map_values(|part: String| part@) == canonical_parts(hashes@.take(i as int)),
        decreases hashes.len() - i,
    {
        let ghost earlier = parts@.map_values(|part: String| part@);
        let part = hashes[i].to_canonical_string();
        parts.push(part);
        proof {
            let shown = parts@.map_values(|part: String| part@);
            let wanted = canonical_parts(hashes@.take(i + 1));
            assert forall|j: int| 0 <= j < shown.len() implies shown[j] == wanted[j] by {
                if j < i {
                    assert(shown[j] == earlier[j]);
                    assert(hashes@.take(i + 1)[j] == hashes@.take(i as int)[j]);
                }
            }
            assert(shown =~= wanted);
        }
        i = i + 1;
    }
    assert(hashes@.take(i as int) == hashes@);
    join_lines(&parts)
}

impl View for HashList {
    type V = Seq<Hash>;

    closed spec fn view(&self) -> Seq<Hash> {
        self.hashes@
    }
}

impl HashList {
    /// The list of the given fingerprints, in the given order.
    pub fn new(hashes: Vec<Hash>) -> (list: HashList)
        ensures
            list@ == hashes@,
    {
        HashList { hashes }
    }

    /// The number of fingerprints in the list.
    pub fn len(&self) -> (n: usize)
        ensures
            n == self@.len(),
    {
        self.hashes.len()
    }

    /// The fingerprints, in list order.
    pub fn to_sequence(&self) -> (hashes: &[Hash])
        ensures
            hashes@ == self@,
    {
        self.hashes.as_slice()
    }

    /// The canonical string of the list: each fingerprint as an unsigned
    /// decimal literal, in list order, with a newline between neighbours and
    /// none at the end.
    pub fn to_delimited_string(&self) -> (text: String)
        ensures
            text@ == canonical_string(self@),
    {
        render_canonical(self.hashes.as_slice())
    }

    /// Reads the canonical string of a list: splits at each newline and reads
    /// every segment as an unsigned 32-bit decimal literal. Fails as a whole
    /// at the first segment that is none, empty segments included.
    pub fn from_canonical_string(s: &str) -> (parsed: Result<HashList, MalformedFingerprint>)
        ensures
            match parsed {
                Ok(list) => well_formed(s@) && list@ == decoded(s@),
                Err(e) => first_malformed(s@, e.line as int),
            },
    {
        let mut hashes: Vec<Hash> = Vec::new();
        let mut chars = s.chars();
        let mut value: u32 = 0;
        let mut started = false;
        let ghost mut seen: Seq<char> = Seq::empty();
        proof {
            broadcast use vstd::string::group_string_axioms;

            assert(chars.remaining() == s@);
        }
        loop
            invariant
                chars.obeys_prophetic_iter_laws(),
                chars.decrease() is Some,
                seen + chars.remaining() == s@,
                hashes@.len() == split_on(seen, '\n').len() - 1,
                forall|j: int|
                    0 <= j < hashes@.len() ==> parse_decimal(#[trigger] split_on(seen, '\n')[j])
                        == Some(hashes@[j].0),
                all_digits(split_on(seen, '\n').last()),
                decimal_value(split_on(seen, '\n').last()) == value,
                started == (split_on(seen, '\n').last().len() > 0),
            decreases chars.decrease()->0,
        {
            let ghost before = chars.remaining();
            let ghost segments = split_on(seen, '\n');
            let ghost open = segments.last();
            match chars.next() {
                None => {
                    proof {
                        broadcast use vstd::string::group_string_axioms;

                        assert(before.len() == 0);
                        assert(seen == s@);
                    }
                    if !started {
                        return Err(MalformedFingerprint { line: hashes.len() });
                    }
                    hashes.push(Hash(value));
                    proof {
                        assert(parse_decimal(open) == Some(value));
                        assert(hashes@ =~= decoded(s@));
                    }
                    return Ok(HashList { hashes });
                },
                Some(c) => {
                    let ghost grown = seen.push(c);
                    proof {
                        broadcast use vstd::string::group_string_axioms;

                        assert(before.len() > 0);
                        assert(grown + chars.remaining() == s@);
                        assert(grown.drop_last() == seen);
                        lemma_split_prefix(grown, chars.remaining(), '\n');
                    }
                    if c == '\n' {
                        if !started {
                            proof {
                                assert(split_on(grown, '\n') == segments.push(Seq::<char>::empty()));
                                assert(split_on(s@, '\n')[hashes@.len() as int] == open);
                            }
                            return Err(MalformedFingerprint { line: hashes.len() });
                        }
                        hashes.push(Hash(value));
                        value = 0;
                        started = false;
                        proof {
                            assert(split_on(grown, '\n') == segments.push(Seq::<char>::empty()));
                            assert(parse_decimal(open) == Some(hashes@.last().0));
                            seen = grown;
                        }
                    } else {
                        match push_digit(value, c) {
                            None => {
                                proof {
                                    let longer = open.push(c);
                                    assert(split_on(grown, '\n') == segments.update(
                                        segments.len() - 1,
                                        longer,
                                    ));
                                    assert(longer.drop_last() == open);
                                    assert(!is_digit(longer[open.len() as int])
                                        || decimal_value(longer) > u32::MAX);
                                    lemma_bad_prefix(
                                        longer,
                                        split_on(s@, '\n')[hashes@.len() as int],
                                    );
                                }
                                return Err(MalformedFingerprint { line: hashes.len() });
                            },
                            Some(next) => {
                                value = next;
                                started = true;
                                proof {
                                    let longer = open.push(c);
                                    assert(split_on(grown, '\n') == segments.update(
                                        segments.len() - 1,
                                        longer,
                                    ));
                                    assert(longer.drop_last() == open);
                                    seen = grown;
                                }
                            },
                        }
                    }
                },
            }
        }
    }

    /// The fingerprints of the given lines, in order.
    pub fn from_lines(lines: &Vec<String>) -> (list: HashList)
        ensures
            list@ == lines@.map_values(|line: String| fingerprint_of(encode_utf8(line@))),
    {
        let mut hashes: Vec<Hash> = Vec::new();
        let mut i: usize = 0;
        while i < lines.len()
            invariant
                i <= lines.len(),
                hashes@ == lines@.take(i as int).map_values(
                    |line: String| fingerprint_of(encode_utf8(line@)),
                ),
            decreases lines.len() - i,
        {
            let hash = fingerprint(lines[i].as_str().as_bytes());
            hashes.push(hash);
            proof {
                assert(lines@.take(i + 1) == lines@.take(i as int).push(lines@[i as int]));
                assert(hashes@ =~= lines@.take(i + 1).map_values(
                    |line: String| fingerprint_of(encode_utf8(line@)),
                ));
            }
            i = i + 1;
        }
        assert(lines@.take(i as int) == lines@);
        HashList { hashes }
    }

    /// The fingerprints of the lines of a text, given as its bytes: the text
    /// is split at each newline byte, and a text that ends in a newline has an
    /// empty last line, whose fingerprint is 0.
    pub fn from_text(text: &[u8]) -> (list: HashList)
        ensures
            list@ == text_fingerprints(text@),
            list@.len() >= 1,
            text@.len() == 0 || text@.last() == 10u8 ==> list@.last() == Hash(0),
    {
        let mut hashes: Vec<Hash> = Vec::new();
        let mut start: usize = 0;
        let mut i: usize = 0;
        while i < text.len()
            invariant
                start <= i <= text.len(),
                hashes@.len() == split_on(text@.take(i as int), 10u8).len() - 1,
                forall|j: int|
                    0 <= j < hashes@.len() ==> hashes@[j] == fingerprint_of(
                        #[trigger] split_on(text@.take(i as int), 10u8)[j],
                    ),
                split_on(text@.take(i as int), 10u8).last() == text@.subrange(
                    start as int,
                    i as int,
                ),
            decreases text.len() - i,
        {
            proof {
                assert(text@.take(i + 1).drop_last() == text@.take(i as int));
                assert(text@.subrange(start as int, i + 1) == text@.subrange(
                    start as int,
                    i as int,
                ).push(text@[i as int]));
            }
            if text[i] == 10u8 {
                let line = slice_subrange(text, start, i);
                hashes.push(fingerprint(line));
                start = i + 1;
                proof {
                    assert(text@.subrange(start as int, start as int) == Seq::<u8>::empty());
                }
            }
            i = i + 1;
        }
        let line = slice_subrange(text, start, i);
        hashes.push(fingerprint(line));
        proof {
            assert(text@.take(i as int) == text@);
            assert(hashes@ =~= text_fingerprints(text@));
        }
        HashList { hashes }
    }

    /// The fingerprints as signed 32-bit integers, bit for bit.
    pub fn to_signed(&self) -> (values: Vec<i32>)
        ensures
            values@ == self@.map_values(|hash: Hash| signed_of(hash.0)),
    {
        let mut values: Vec<i32> = Vec::new();
        let mut i: usize = 0;
        while i < self.hashes.len()
            invariant
                i <= self.hashes.len(),
                values@ == self.hashes@.take(i as int).map_values(|hash: Hash| signed_of(hash.0)),
            decreases self.hashes.len() - i,
        {
            values.push(self.hashes[i].to_signed());
            proof {
                assert(self.hashes@.take(i + 1) == self.hashes@.take(i as int).push(
                    self.hashes@[i as int],
                ));
                assert(values@ =~= self.hashes@.take(i + 1).map_values(
                    |hash: Hash| signed_of(hash.0),
                ));
            }
            i = i + 1;
        }
        assert(self.hashes@.take(i as int) == self.hashes@);
        values
    }

    /// The list of the fingerprints whose signed readings are given.
    pub fn from_signed(values: &Vec<i32>) -> (list: HashList)
        ensures
            list@ == values@.map_values(|s: i32| Hash(unsigned_of(s))),
    {
        let mut hashes: Vec<Hash> = Vec::new();
        let mut i: usize = 0;
        while i < values.len()
            invariant
                i <= values.len(),
                hashes@ == values@.take(i as int).map_values(|s: i32| Hash(unsigned_of(s))),
            decreases values.len() - i,
        {
            hashes.push(Hash::from_signed(values[i]));
            proof {
                assert(values@.take(i + 1) == values@.take(i as int).push(values@[i as int]));
                assert(hashes@ =~= values@.take(i + 1).map_values(|s: i32| Hash(unsigned_of(s))));
            }
            i = i + 1;
        }
        assert(values@.take(i as int) == values@);
        HashList { hashes }
    }
}

impl From<u32> for Hash {
    /// Wraps an unsigned 32-bit checksum value.
    fn from(value: u32) -> (hash: Hash) {
        Hash(value)
    }
}

impl vstd::std_specs::convert::FromSpecImpl<u32> for Hash {
    open spec fn obeys_from_spec() -> bool {
        true
    }

    open spec fn from_spec(value: u32) -> Hash {
        Hash(value)
    }
}

impl std::str::FromStr for Hash {
    type Err = MalformedFingerprint;

    /// Reads an unsigned 32-bit decimal literal, as `parse_canonical_string`
    /// does.
    fn from_str(s: &str) -> (parsed: Result<Hash, MalformedFingerprint>)
        ensures
            match parsed {
                Ok(hash) => parse_decimal(s@) == Some(hash.0),
                Err(e) => parse_decimal(s@) is None && e.line == 0,
            },
    {
        Hash::parse_canonical_string(s)
    }
}

impl From<Vec<Hash>> for HashList {
    /// The list of the given fingerprints, in the given order.
    fn from(hashes: Vec<Hash>) -> (list: HashList)
        ensures
            list@ == hashes@,
    {
        HashList { hashes }
    }
}

impl vstd::std_specs::convert::FromSpecImpl<Vec<Hash>> for HashList {
    open spec fn obeys_from_spec() -> bool {
        true
    }

    closed spec fn from_spec(hashes: Vec<Hash>) -> HashList {
        HashList { hashes }
    }
}

impl From<HashList> for Vec<Hash> {
    /// The fingerprints of the list, in list order.
    fn from(list: HashList) -> (hashes: Vec<Hash>)
        ensures
            hashes@ == list@,
    {
        list.hashes
    }
}

impl vstd::std_specs::convert::FromSpecImpl<HashList> for Vec<Hash> {
    open spec fn obeys_from_spec() -> bool {
        true
    }

    closed spec fn from_spec(list: HashList) -> Vec<Hash> {
        list.hashes
    }
}

impl TryFrom<&str> for HashList {
    type Error = MalformedFingerprint;

    /// Reads the canonical string of a list, as `from_canonical_string`
    /// does.
    fn try_from(s: &str) -> (parsed: Result<HashList, MalformedFingerprint>)
        ensures
            match parsed {
                Ok(list) => well_formed(s@) && list@ == decoded(s@),
                Err(e) => first_malformed(s@, e.line as int),
            },
    {
        HashList::from_canonical_string(s)
    }
}

impl vstd::std_specs::convert::TryFromSpecImpl<&str> for HashList {
    /// What `try_from` gives is stated on `try_from` itself, over views: a
    /// list is known in a specification by its fingerprints only.
    open spec fn obeys_try_from_spec() -> bool {
        false
    }

    closed spec fn try_from_spec(s: &str) -> Result<HashList, MalformedFingerprint> {
        if well_formed(s@) {
            Ok(choose|list: HashList| list@ == decoded(s@))
        } else {
            Err(MalformedFingerprint { line: (choose|k: int| first_malformed(s@, k)) as usize })
        }
    }
}

impl Clone for HashList {
    /// A list of the same fingerprints in the same order.
    fn clone(&self) -> (copy: HashList)
        ensures
            copy@ == self@,
    {
        HashList { hashes: self.hashes.clone() }
    }
}

} // verus!
