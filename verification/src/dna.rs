//! Searching a DNA sequence for a shorter sequence, over and over, without
//! ever finding two occurrences that overlap.
//!
//! The searches for a stretch of text count positions in bytes from the
//! start of the searched text, as `str` counts them. The scans that allow
//! anything between the characters of the pattern count characters.

use vstd::prelude::*;
use vstd::string::{StrSliceExecFns, StringSliceAdditionalSpecFns};

verus! {

/// Whether `needle` stands in `hay` at position `at`.
pub open spec fn occurs_at(hay: Seq<u8>, needle: Seq<u8>, at: int) -> bool {
    &&& 0 <= at
    &&& at + needle.len() <= hay.len()
    &&& hay.subrange(at, at + needle.len()) == needle
}

/// Whether `needle` stands nowhere in `hay` at position `from` or later.
pub open spec fn no_match(hay: Seq<u8>, needle: Seq<u8>, from: int) -> bool {
    forall|at: int| from <= at ==> !occurs_at(hay, needle, at)
}

/// Whether `at` is the first position, `from` or later, at which `needle`
/// stands in `hay`.
pub open spec fn first_match(hay: Seq<u8>, needle: Seq<u8>, from: int, at: int) -> bool {
    &&& from <= at
    &&& occurs_at(hay, needle, at)
    &&& forall|earlier: int| from <= earlier < at ==> !occurs_at(hay, needle, earlier)
}

/// Where the search goes on after the first `count` of `positions`: behind
/// the last of them, or at the start.
pub open spec fn resume_at(needle: Seq<u8>, positions: Seq<usize>, count: int) -> int {
    if count <= 0 {
        0
    } else {
        positions[count - 1] + needle.len()
    }
}

/// Whether number `i` of `positions` is the first occurrence of `needle` in
/// `hay` behind the one before it.
pub open spec fn found_in_turn(hay: Seq<u8>, needle: Seq<u8>, positions: Seq<usize>, i: int) -> bool {
    first_match(hay, needle, resume_at(needle, positions, i), positions[i] as int)
}

/// Whether `positions` are the occurrences of `needle` in `hay` that a
/// search from left to right finds when it goes on behind each occurrence
/// found: each is the first one behind the one before, and behind the last
/// there is no other.
pub open spec fn leftmost_matches(hay: Seq<u8>, needle: Seq<u8>, positions: Seq<usize>) -> bool {
    &&& forall|i: int|
        0 <= i < positions.len() ==> #[trigger] found_in_turn(hay, needle, positions, i)
    &&& no_match(hay, needle, resume_at(needle, positions, positions.len() as int))
}

/// Whether `needle` stands in `hay` at position `at`.
fn matches_at(hay: &[u8], needle: &[u8], at: usize) -> (same: bool)
    requires
        at + needle@.len() <= hay@.len(),
    ensures
        same == occurs_at(hay@, needle@, at as int),
{
    let hay_len = hay.len();
    let mut i: usize = 0;
    while i < needle.len()
        invariant
            hay_len == hay@.len(),
            i <= needle@.len(),
            at + needle@.len() <= hay@.len(),
            forall|k: int| 0 <= k < i ==> hay@[at + k] == needle@[k],
        decreases needle@.len() - i,
    {
        if hay[at + i] != needle[i] {
            assert(hay@.subrange(at as int, at + needle@.len())[i as int] != needle@[i as int]);
            return false;
        }
        i = i + 1;
    }
    assert(hay@.subrange(at as int, at + needle@.len()) =~= needle@);
    true
}

/// The first position, `from` or later, at which `needle` stands in `hay`.
pub(crate) fn find_from(hay: &[u8], needle: &[u8], from: usize) -> (found: Option<usize>)
    requires
        from <= hay@.len(),
    ensures
        match found {
            Some(at) => first_match(hay@, needle@, from as int, at as int),
            None => no_match(hay@, needle@, from as int),
        },
        hay@.len() <= usize::MAX,
{
    if needle.len() > hay.len() - from {
        return None;
    }
    let last = hay.len() - needle.len();
    let mut at: usize = from;
    loop
        invariant
            from <= at <= last,
            last + needle@.len() == hay@.len(),
            hay@.len() <= usize::MAX,
            forall|earlier: int| from <= earlier < at ==> !occurs_at(hay@, needle@, earlier),
        decreases last - at,
    {
        if matches_at(hay, needle, at) {
            return Some(at);
        }
        if at == last {
            return None;
        }
        at = at + 1;
    }
}

/// A search through a sequence that is asked for one occurrence at a time.
pub struct SimpleDNAIter<'a> {
    dna_sequence: &'a str,
    subsequence_to_find: &'a str,
    current_pos: usize,
}

impl<'a> SimpleDNAIter<'a> {
    #[verifier::type_invariant]
    spec fn inv(self) -> bool {
        self.current_pos <= self.dna_sequence.spec_bytes().len()
    }

    /// The bytes of the sequence that is searched.
    pub closed spec fn hay(self) -> Seq<u8> {
        self.dna_sequence.spec_bytes()
    }

    /// The sequence that is looked for.
    pub closed spec fn pattern(self) -> &'a str {
        self.subsequence_to_find
    }

    /// The position at which the search goes on.
    pub closed spec fn position(self) -> nat {
        self.current_pos as nat
    }

    /// Makes a search for `seq` in `s` that starts at the beginning.
    pub fn new(s: &'a str, seq: &'a str) -> (search: Self)
        ensures
            search.hay() == s.spec_bytes(),
            search.pattern() == seq,
            search.position() == 0,
    {
        SimpleDNAIter { dna_sequence: s, subsequence_to_find: seq, current_pos: 0 }
    }

    /// Finds the next occurrence: the first one at or behind the position of
    /// the search. The answer is where it starts and what was found, and the
    /// search goes on behind it. Where there is none, the search stays where
    /// it is.
    pub fn next(&mut self) -> (found: Option<(usize, &'a str)>)
        ensures
            final(self).hay() == old(self).hay(),
            final(self).pattern() == old(self).pattern(),
            match found {
                Some((start, piece)) => {
                    &&& first_match(
                        old(self).hay(),
                        old(self).pattern().spec_bytes(),
                        old(self).position() as int,
                        start as int,
                    )
                    &&& piece == old(self).pattern()
                    &&& final(self).position() == start + old(self).pattern().spec_bytes().len()
                },
                None => {
                    &&& no_match(
                        old(self).hay(),
                        old(self).pattern().spec_bytes(),
                        old(self).position() as int,
                    )
                    &&& final(self).position() == old(self).position()
                },
            },
    {
        proof {
            use_type_invariant(&*self);
        }
        let needle = self.subsequence_to_find.as_bytes();
        let hay = self.dna_sequence.as_bytes();
        match find_from(hay, needle, self.current_pos) {
            Some(start) => {
                let end = start + needle.len();
                self.current_pos = end;
                Some((start, self.subsequence_to_find))
            },
            None => None,
        }
    }
}

/// A search through a sequence that hands out its occurrences one by one.
pub struct DNAIter<'a> {
    s: &'a str,
    seq: &'a str,
    current_pos: usize,
}

impl<'a> DNAIter<'a> {
    #[verifier::type_invariant]
    spec fn inv(self) -> bool {
        self.current_pos <= self.s.spec_bytes().len()
    }

    /// The bytes of the sequence that is searched.
    pub closed spec fn hay(self) -> Seq<u8> {
        self.s.spec_bytes()
    }

    /// The sequence that is looked for.
    pub closed spec fn pattern(self) -> &'a str {
        self.seq
    }

    /// The position at which the search goes on.
    pub closed spec fn position(self) -> nat {
        self.current_pos as nat
    }

    /// Makes a search for `seq` in `s` that starts at the beginning.
    pub fn new(s: &'a str, seq: &'a str) -> (search: DNAIter<'a>)
        ensures
            search.hay() == s.spec_bytes(),
            search.pattern() == seq,
            search.position() == 0,
    {
        DNAIter { s, seq, current_pos: 0 }
    }

    /// Hands out the next occurrence: the first one at or behind the
    /// position of the search, as where it starts and what was found. The
    /// search goes on behind it. Where there is none, the search stays where
    /// it is.
    pub fn next(&mut self) -> (found: Option<(usize, &'a str)>)
        ensures
            final(self).hay() == old(self).hay(),
            final(self).pattern() == old(self).pattern(),
            match found {
                Some((start, piece)) => {
                    &&& first_match(
                        old(self).hay(),
                        old(self).pattern().spec_bytes(),
                        old(self).position() as int,
                        start as int,
                    )
                    &&& piece == old(self).pattern()
                    &&& final(self).position() == start + old(self).pattern().spec_bytes().len()
                },
                None => {
                    &&& no_match(
                        old(self).hay(),
                        old(self).pattern().spec_bytes(),
                        old(self).position() as int,
                    )
                    &&& final(self).position() == old(self).position()
                },
            },
    {
        proof {
            use_type_invariant(&*self);
        }
        let needle = self.seq.as_bytes();
        let hay = self.s.as_bytes();
        match find_from(hay, needle, self.current_pos) {
            Some(start) => {
                let end = start + needle.len();
                self.current_pos = end;
                Some((start, self.seq))
            },
            None => None,
        }
    }
}

/// A search for `seq` in `s` that hands out its occurrences one by one, from
/// the beginning.
pub fn subsequence5_iter<'a>(s: &'a str, seq: &'a str) -> (search: DNAIter<'a>)
    ensures
        search.hay() == s.spec_bytes(),
        search.pattern() == seq,
        search.position() == 0,
{
    DNAIter::new(s, seq)
}

/// The positions of the occurrences of `subsequence_to_find` in
/// `dna_sequence`, from left to right, none overlapping the one before.
pub fn subsequences3(dna_sequence: &str, subsequence_to_find: &str) -> (positions: Vec<usize>)
    requires
        subsequence_to_find.spec_bytes().len() > 0,
    ensures
        leftmost_matches(
            dna_sequence.spec_bytes(),
            subsequence_to_find.spec_bytes(),
            positions@,
        ),
{
    let hay = dna_sequence.as_bytes();
    let needle = subsequence_to_find.as_bytes();
    let total = hay.len();
    let mut positions: Vec<usize> = Vec::new();
    let mut current_pos: usize = 0;
    loop
        invariant
            hay@ == dna_sequence.spec_bytes(),
            needle@ == subsequence_to_find.spec_bytes(),
            needle@.len() > 0,
            total == hay@.len(),
            current_pos <= total,
            current_pos == resume_at(needle@, positions@, positions@.len() as int),
            forall|i: int|
                0 <= i < positions@.len() ==> #[trigger] found_in_turn(
                    hay@,
                    needle@,
                    positions@,
                    i,
                ),
        ensures
            leftmost_matches(hay@, needle@, positions@),
        decreases total - current_pos,
    {
        match find_from(hay, needle, current_pos) {
            Some(at) => {
                let ghost before = positions@;
                positions.push(at);
                current_pos = at + needle.len();
                assert forall|i: int| 0 <= i < positions@.len() implies #[trigger] found_in_turn(
                    hay@,
                    needle@,
                    positions@,
                    i,
                ) by {
                    if i < before.len() {
                        assert(found_in_turn(hay@, needle@, before, i));
                        assert(positions@[i] == before[i]);
                        assert(resume_at(needle@, positions@, i) == resume_at(needle@, before, i));
                    }
                }
            },
            None => {
                break ;
            },
        }
    }
    positions
}

/// Calls `process_match` for each occurrence of `subsequence_to_find` in
/// `dna_sequence`, from left to right, none overlapping the one before, with
/// where the occurrence starts and what was found. What `process_match`
/// promises of a call then holds of the call for each occurrence.
pub fn subsequence4<F>(dna_sequence: &str, subsequence_to_find: &str, process_match: F) where
    F: Fn(usize, &str),

    requires
        subsequence_to_find.spec_bytes().len() > 0,
        forall|start: usize, piece: &str| call_requires(process_match, (start, piece)),
    ensures
        exists|positions: Seq<usize>|
            {
                &&& leftmost_matches(
                    dna_sequence.spec_bytes(),
                    subsequence_to_find.spec_bytes(),
                    positions,
                )
                &&& forall|i: int|
                    0 <= i < positions.len() ==> call_ensures(
                        process_match,
                        (#[trigger] positions[i], subsequence_to_find),
                        (),
                    )
            },
{
    let hay = dna_sequence.as_bytes();
    let needle = subsequence_to_find.as_bytes();
    let total = hay.len();
    let ghost mut positions: Seq<usize> = Seq::empty();
    let mut current_pos: usize = 0;
    loop
        invariant
            hay@ == dna_sequence.spec_bytes(),
            needle@ == subsequence_to_find.spec_bytes(),
            needle@.len() > 0,
            total == hay@.len(),
            current_pos <= total,
            current_pos == resume_at(needle@, positions, positions.len() as int),
            forall|start: usize, piece: &str| call_requires(process_match, (start, piece)),
            forall|i: int|
                0 <= i < positions.len() ==> #[trigger] found_in_turn(hay@, needle@, positions, i),
            forall|i: int|
                0 <= i < positions.len() ==> call_ensures(
                    process_match,
                    (#[trigger] positions[i], subsequence_to_find),
                    (),
                ),
        ensures
            leftmost_matches(hay@, needle@, positions),
            forall|i: int|
                0 <= i < positions.len() ==> call_ensures(
                    process_match,
                    (#[trigger] positions[i], subsequence_to_find),
                    (),
                ),
        decreases total - current_pos,
    {
        match find_from(hay, needle, current_pos) {
            Some(start) => {
                process_match(start, subsequence_to_find);
                let ghost before = positions;
                proof {
                    positions = positions.push(start);
                }
                current_pos = start + needle.len();
                assert forall|i: int| 0 <= i < positions.len() implies #[trigger] found_in_turn(
                    hay@,
                    needle@,
                    positions,
                    i,
                ) by {
                    if i < before.len() {
                        assert(found_in_turn(hay@, needle@, before, i));
                        assert(positions[i] == before[i]);
                        assert(resume_at(needle@, positions, i) == resume_at(needle@, before, i));
                    }
                }
                assert forall|i: int| 0 <= i < positions.len() implies call_ensures(
                    process_match,
                    (#[trigger] positions[i], subsequence_to_find),
                    (),
                ) by {
                    if i < before.len() {
                        assert(positions[i] == before[i]);
                    }
                }
            },
            None => {
                break ;
            },
        }
    }
}

/// How many elements of `pattern` a scan of the first `k` elements of
/// `text` has found, one after the other and in order, with anything in
/// between.
pub open spec fn progress(text: Seq<char>, pattern: Seq<char>, k: int) -> int
    decreases k,
{
    if k <= 0 {
        0
    } else {
        let before = progress(text, pattern, k - 1);
        if before < pattern.len() && text[k - 1] == pattern[before] {
            before + 1
        } else {
            before
        }
    }
}

/// Whether a scan of `text` has found all of `pattern` when it has read
/// `end` elements, and not before.
pub open spec fn completes_at(text: Seq<char>, pattern: Seq<char>, end: int) -> bool {
    &&& 1 <= end <= text.len()
    &&& progress(text, pattern, end) == pattern.len()
    &&& progress(text, pattern, end - 1) < pattern.len()
}

/// Whether `found` is what the scan of `text` for `pattern` gives. Nothing is
/// found in an empty text, and an empty pattern is not looked for. Else
/// the scan stops where it has found the last element of `pattern`, and
/// gives the stretch of `text` that ends there and is as long as `pattern`.
pub open spec fn scan_gives(
    text: Seq<char>,
    pattern: Seq<char>,
    found: Option<(int, Seq<char>)>,
) -> bool {
    if text.len() == 0 || pattern.len() == 0 {
        found is None
    } else {
        match found {
            Some((start, piece)) => completes_at(text, pattern, start + pattern.len()) && piece
                == text.subrange(start, start + pattern.len()),
            None => progress(text, pattern, text.len() as int) < pattern.len(),
        }
    }
}

/// A scan never finds more elements than it has read.
proof fn lemma_progress_bounded(text: Seq<char>, pattern: Seq<char>, k: int)
    requires
        0 <= k,
    ensures
        0 <= progress(text, pattern, k) <= k,
        progress(text, pattern, k) <= pattern.len(),
    decreases k,
{
    if k > 0 {
        lemma_progress_bounded(text, pattern, k - 1);
    }
}

/// The characters of `text`.
fn chars_of(text: &str) -> (chars: Vec<char>)
    ensures
        chars@ == text@,
{
    let mut chars: Vec<char> = Vec::new();
    for c in it: text.chars()
        invariant
            it.seq() == text@,
            chars@ == text@.subrange(0, it.index() as int),
    {
        chars.push(c);
        assert(chars@ =~= text@.subrange(0, it.index() + 1));
    }
    assert(chars@ =~= text@);
    chars
}

/// Scans `dna_sequence_left` for the characters of `subsequence_to_find`,
/// one after the other and in order, with anything in between, and stops
/// where the last of them is found. The answer is the stretch of the text
/// that ends there and is as long as the pattern, with where it starts.
pub fn find_sub<'a>(dna_sequence_left: &'a str, subsequence_to_find: &'a str) -> (found: Option<
    (usize, &'a str),
>)
    ensures
        scan_gives(
            dna_sequence_left@,
            subsequence_to_find@,
            match found {
                Some((start, piece)) => Some((start as int, piece@)),
                None => None,
            },
        ),
{
    if dna_sequence_left.is_empty() || subsequence_to_find.is_empty() {
        return None;
    }
    let subseq_chars = chars_of(subsequence_to_find);
    let total = dna_sequence_left.unicode_len();
    let mut subseq_idx: usize = 0;
    let mut current_pos: usize = 0;
    for crt_to_compare in it: dna_sequence_left.chars()
        invariant
            it.seq() == dna_sequence_left@,
            total == dna_sequence_left@.len(),
            subseq_chars@ == subsequence_to_find@,
            subseq_chars@.len() > 0,
            current_pos == it.index(),
            current_pos <= total,
            subseq_idx == progress(dna_sequence_left@, subsequence_to_find@, current_pos as int),
            subseq_idx < subseq_chars@.len(),
            subseq_idx <= current_pos,
    {
        if crt_to_compare == subseq_chars[subseq_idx] {
            subseq_idx = subseq_idx + 1;
            if subseq_idx == subseq_chars.len() {
                let start_pos = current_pos + 1 - subseq_chars.len();
                return Some(
                    (start_pos, dna_sequence_left.substring_char(start_pos, current_pos + 1)),
                );
            }
        }
        current_pos = current_pos + 1;
    }
    None
}

/// Where the scan goes on after the first `count` of `matches`: behind the
/// last of them, or at the start.
pub open spec fn scan_resumes_at(pattern: Seq<char>, matches: Seq<(usize, &str)>, count: int) -> int {
    if count <= 0 {
        0
    } else {
        matches[count - 1].0 + pattern.len()
    }
}

/// Whether number `i` of `matches` is what the scan of `text` for `pattern`
/// gives when it starts behind the match before.
pub open spec fn scanned_in_turn(
    text: Seq<char>,
    pattern: Seq<char>,
    matches: Seq<(usize, &str)>,
    i: int,
) -> bool {
    let from = scan_resumes_at(pattern, matches, i);
    &&& from <= matches[i].0
    &&& from <= text.len()
    &&& scan_gives(
        text.subrange(from, text.len() as int),
        pattern,
        Some((matches[i].0 - from, matches[i].1@)),
    )
}

/// Whether `matches` are what scan after scan of `text` for `pattern`
/// gives, each scan starting behind what the one before gave, until a scan
/// finds nothing.
pub open spec fn scan_matches(text: Seq<char>, pattern: Seq<char>, matches: Seq<(usize, &str)>) -> bool {
    let rest = scan_resumes_at(pattern, matches, matches.len() as int);
    &&& forall|i: int| 0 <= i < matches.len() ==> #[trigger] scanned_in_turn(text, pattern, matches, i)
    &&& rest <= text.len()
    &&& scan_gives(text.subrange(rest, text.len() as int), pattern, None)
}

/// Scans `dna_sequence` for `subsequence_to_find` over and over, each time
/// from behind what the scan before gave, and gathers what the scans give,
/// with where each starts in `dna_sequence`.
pub fn subsequences1<'a>(dna_sequence: &'a str, subsequence_to_find: &'a str) -> (result: Vec<
    (usize, &'a str),
>)
    ensures
        scan_matches(dna_sequence@, subsequence_to_find@, result@),
{
    let total = dna_sequence.unicode_len();
    let pattern_len = subsequence_to_find.unicode_len();
    let mut result: Vec<(usize, &'a str)> = Vec::new();
    let mut current_pos: usize = 0;
    loop
        invariant
            total == dna_sequence@.len(),
            pattern_len == subsequence_to_find@.len(),
            current_pos <= total,
            current_pos == scan_resumes_at(subsequence_to_find@, result@, result@.len() as int),
            forall|i: int|
                0 <= i < result@.len() ==> #[trigger] scanned_in_turn(
                    dna_sequence@,
                    subsequence_to_find@,
                    result@,
                    i,
                ),
        ensures
            scan_matches(dna_sequence@, subsequence_to_find@, result@),
        decreases total - current_pos,
    {
        let rest = dna_sequence.substring_char(current_pos, total);
        match find_sub(rest, subsequence_to_find) {
            Some((pos, found_subsequence)) => {
                let ghost before = result@;
                let ghost from = current_pos as int;
                let start = current_pos + pos;
                result.push((start, found_subsequence));
                current_pos = start + pattern_len;
                assert forall|i: int| 0 <= i < result@.len() implies #[trigger] scanned_in_turn(
                    dna_sequence@,
                    subsequence_to_find@,
                    result@,
                    i,
                ) by {
                    if i < before.len() {
                        assert(scanned_in_turn(dna_sequence@, subsequence_to_find@, before, i));
                        assert(result@[i] == before[i]);
                        assert(scan_resumes_at(subsequence_to_find@, result@, i) == scan_resumes_at(
                            subsequence_to_find@,
                            before,
                            i,
                        ));
                    } else {
                        assert(scan_resumes_at(subsequence_to_find@, result@, i) == from);
                    }
                }
            },
            None => {
                break ;
            },
        }
    }
    result
}

/// `matches`, each with `tag` beside it.
pub open spec fn tagged<'a>(matches: Seq<(usize, &'a str)>, tag: &'a str) -> Seq<
    (usize, &'a str, &'a str),
> {
    Seq::new(matches.len(), |i: int| (matches[i].0, matches[i].1, tag))
}

/// What the searches for the first `count` of `patterns` give, one search
/// after the other, each match with its pattern beside it.
pub open spec fn tagged_up_to<'a>(
    parts: Seq<Seq<(usize, &'a str)>>,
    patterns: Seq<&'a str>,
    count: int,
) -> Seq<(usize, &'a str, &'a str)>
    decreases count,
{
    if count <= 0 {
        Seq::empty()
    } else {
        tagged_up_to(parts, patterns, count - 1) + tagged(parts[count - 1], patterns[count - 1])
    }
}

/// Searches `dna_sequence` for each of `subsequences_to_find` as
/// `subsequences1` does, one pattern after the other, and gathers what the
/// searches give, each match with its pattern beside it.
pub fn subsequences2<'a>(dna_sequence: &'a str, subsequences_to_find: &'a [&'a str]) -> (result:
    Vec<(usize, &'a str, &'a str)>)
    ensures
        exists|parts: Seq<Seq<(usize, &'a str)>>|
            {
                &&& parts.len() == subsequences_to_find@.len()
                &&& forall|j: int|
                    0 <= j < parts.len() ==> scan_matches(
                        dna_sequence@,
                        subsequences_to_find@[j]@,
                        #[trigger] parts[j],
                    )
                &&& result@ == tagged_up_to(
                    parts,
                    subsequences_to_find@,
                    subsequences_to_find@.len() as int,
                )
            },
{
    let mut result: Vec<(usize, &'a str, &'a str)> = Vec::new();
    let ghost mut parts: Seq<Seq<(usize, &'a str)>> = Seq::empty();
    let mut j: usize = 0;
    while j < subsequences_to_find.len()
        invariant
            j <= subsequences_to_find@.len(),
            parts.len() == j,
            forall|k: int|
                0 <= k < parts.len() ==> scan_matches(
                    dna_sequence@,
                    subsequences_to_find@[k]@,
                    #[trigger] parts[k],
                ),
            result@ == tagged_up_to(parts, subsequences_to_find@, j as int),
        decreases subsequences_to_find@.len() - j,
    {
        let subseq = subsequences_to_find[j];
        let found = subsequences1(dna_sequence, subseq);
        let ghost before = result@;
        let ghost earlier = parts;
        let mut i: usize = 0;
        while i < found.len()
            invariant
                i <= found@.len(),
                result@ == before + tagged(found@, subseq).subrange(0, i as int),
            decreases found@.len() - i,
        {
            let (start, piece) = found[i];
            result.push((start, piece, subseq));
            i = i + 1;
            assert(result@ =~= before + tagged(found@, subseq).subrange(0, i as int));
        }
        assert(result@ =~= before + tagged(found@, subseq));
        proof {
            parts = parts.push(found@);
            lemma_tagged_prefix(earlier, parts, subsequences_to_find@, j as int);
        }
        j = j + 1;
    }
    proof {
        assert(parts.len() == subsequences_to_find@.len());
    }
    result
}

/// What the first `count` searches give does not depend on the searches that
/// come later.
proof fn lemma_tagged_prefix<'a>(
    short: Seq<Seq<(usize, &'a str)>>,
    long: Seq<Seq<(usize, &'a str)>>,
    patterns: Seq<&'a str>,
    count: int,
)
    requires
        0 <= count <= short.len() <= long.len(),
        forall|k: int| 0 <= k < count ==> short[k] == long[k],
    ensures
        tagged_up_to(short, patterns, count) == tagged_up_to(long, patterns, count),
    decreases count,
{
    if count > 0 {
        lemma_tagged_prefix(short, long, patterns, count - 1);
    }
}

} // verus!
