//! The idle bitmap: one bit per host page, which the kernel clears when the
//! page is touched.
//!
//! The bitmap is read and written in words of 64 bits. A pass over it says
//! where its next word lies and takes what was read there.

use crate::idle_page_tracking::native;
use crate::ordered;
use std::collections::BTreeMap;
use vstd::prelude::*;

verus! {

/// Whether a bit of a word is set.
pub open spec fn bit_is_set(word: u64, bit: u64) -> bool {
    word & (1u64 << bit) != 0
}

/// The words of the bitmap that hold the bits of the PFNs, each with these
/// bits set and no other.
pub open spec fn words_of(pfns: Seq<u64>) -> Map<u64, u64>
    decreases pfns.len(),
{
    if pfns.len() == 0 {
        Map::empty()
    } else {
        let words = words_of(pfns.drop_last());
        let pfn = pfns.last();
        let bits = if words.contains_key(pfn / 64) {
            words[pfn / 64]
        } else {
            0
        };
        words.insert(pfn / 64, bits | (1u64 << (pfn % 64)))
    }
}

proof fn lemma_setting_a_bit(word: u64, set: u64, bit: u64)
    requires
        set < 64,
        bit < 64,
    ensures
        bit_is_set(word | (1u64 << set), bit) <==> bit_is_set(word, bit) || bit == set,
{
    assert(((word | (1u64 << set)) & (1u64 << bit)) != 0 <==> (word & (1u64 << bit)) != 0 || bit
        == set) by (bit_vector)
        requires
            set < 64,
            bit < 64,
    ;
}

/// A word is among those of the PFNs exactly when it holds the bit of one of
/// them, and a bit of it is set exactly when it is that of one of them.
pub proof fn law_words_hold_the_pfns(pfns: Seq<u64>)
    ensures
        forall|word: u64| #[trigger]
            words_of(pfns).contains_key(word) <==> exists|i: int|
                0 <= i < pfns.len() && #[trigger] pfns[i] / 64 == word,
        forall|pfn: u64|
            #![trigger pfns.contains(pfn)]
            pfns.contains(pfn) <==> words_of(pfns).contains_key(pfn / 64) && bit_is_set(
                words_of(pfns)[pfn / 64],
                pfn % 64,
            ),
    decreases pfns.len(),
{
    if pfns.len() > 0 {
        let before = pfns.drop_last();
        let last = pfns.last();
        law_words_hold_the_pfns(before);
        assert(pfns[pfns.len() - 1] == last);
        assert forall|word: u64| #[trigger] words_of(pfns).contains_key(word) <==> exists|i: int|
            0 <= i < pfns.len() && #[trigger] pfns[i] / 64 == word by {
            if words_of(before).contains_key(word) {
                let i = choose|i: int| 0 <= i < before.len() && #[trigger] before[i] / 64 == word;
                assert(pfns[i] / 64 == word);
            }
            if exists|i: int| 0 <= i < pfns.len() && #[trigger] pfns[i] / 64 == word {
                let i = choose|i: int| 0 <= i < pfns.len() && #[trigger] pfns[i] / 64 == word;
                if i < before.len() {
                    assert(before[i] / 64 == word);
                }
            }
        }
        assert forall|pfn: u64|
            #![trigger pfns.contains(pfn)]
            pfns.contains(pfn) <==> words_of(pfns).contains_key(pfn / 64) && bit_is_set(
                words_of(pfns)[pfn / 64],
                pfn % 64,
            ) by {
            assert(pfns.contains(pfn) <==> before.contains(pfn) || pfn == last) by {
                if pfns.contains(pfn) {
                    let i = choose|i: int| 0 <= i < pfns.len() && pfns[i] == pfn;
                    if i < before.len() {
                        assert(before[i] == pfn);
                    }
                }
                if before.contains(pfn) {
                    let i = choose|i: int| 0 <= i < before.len() && before[i] == pfn;
                    assert(pfns[i] == pfn);
                }
            }
            let bits = if words_of(before).contains_key(last / 64) {
                words_of(before)[last / 64]
            } else {
                0
            };
            lemma_setting_a_bit(bits, last % 64, pfn % 64);
            let bit = pfn % 64;
            assert(0u64 & (1u64 << bit) == 0) by (bit_vector);
            if pfn / 64 == last / 64 && pfn % 64 == last % 64 {
                assert(pfn == last);
            }
        }
    }
}

/// The words of the bitmap that hold the bits of the PFNs, each with these
/// bits set and no other.
pub fn bitmap_words(pfns: &[u64]) -> (words: BTreeMap<u64, u64>)
    ensures
        words@ == words_of(pfns@),
{
    let mut words: BTreeMap<u64, u64> = BTreeMap::new();
    let mut i: usize = 0;
    assert(pfns@.take(0) =~= Seq::empty());
    while i < pfns.len()
        invariant
            i <= pfns@.len(),
            words@ == words_of(pfns@.take(i as int)),
        decreases pfns@.len() - i,
    {
        let pfn: u64 = pfns[i];
        let bits: u64 = match words.get(&(pfn / 64)) {
            Some(bits) => *bits,
            None => 0,
        };
        words.insert(pfn / 64, bits | (1u64 << (pfn % 64)));
        proof {
            assert(pfns@.take(i + 1).drop_last() =~= pfns@.take(i as int));
            assert(pfns@.take(i + 1).last() == pfn);
        }
        i += 1;
    }
    assert(pfns@.take(pfns@.len() as int) =~= pfns@);
    words
}

/// Words with their bits, in ascending order.
pub open spec fn listing(words: Map<u64, u64>) -> Seq<(u64, u64)> {
    ordered::ascending(words.dom()).map_values(|word: u64| (word, words[word]))
}

/// The words of the PFNs with their bits, in ascending order.
fn listed_words(pfns: &[u64]) -> (list: Vec<(u64, u64)>)
    ensures
        list@ == listing(words_of(pfns@)),
        ordered::lists_ascending(ordered::ascending(words_of(pfns@).dom()), words_of(pfns@).dom()),
        forall|i: int| 0 <= i < list@.len() ==> (#[trigger] list@[i]).0 <= u64::MAX / 64,
{
    let words = bitmap_words(pfns);
    let keys = ordered::ascending_keys(&words);
    let mut list: Vec<(u64, u64)> = Vec::new();
    let mut i: usize = 0;
    while i < keys.len()
        invariant
            i <= keys@.len(),
            words@ == words_of(pfns@),
            ordered::lists_ascending(keys@, words@.dom()),
            list@ =~= keys@.take(i as int).map_values(|word: u64| (word, words@[word])),
        decreases keys@.len() - i,
    {
        let word: u64 = keys[i];
        assert(keys@.contains(word));
        let bits: u64 = match words.get(&word) {
            Some(bits) => *bits,
            None => 0,
        };
        list.push((word, bits));
        i += 1;
    }
    proof {
        assert(keys@.take(keys@.len() as int) =~= keys@);
        assert(list@ =~= listing(words@));
        assert forall|i: int| 0 <= i < list@.len() implies (#[trigger] list@[i]).0 <= u64::MAX
            / 64 by {
            assert(keys@.contains(keys@[i]));
            law_words_hold_the_pfns(pfns@);
            let j = choose|j: int| 0 <= j < pfns@.len() && #[trigger] pfns@[j] / 64 == list@[i].0;
            assert(pfns@[j] / 64 <= u64::MAX / 64);
        }
    }
    list
}

/// The bitmap: each of its words.
pub type Bitmap = spec_fn(u64) -> u64;

/// Whether the bit of a PFN is set.
pub open spec fn is_idle(bitmap: Bitmap, pfn: u64) -> bool {
    bit_is_set(bitmap(pfn / 64), pfn % 64)
}

/// How far a pass that marks pages idle has come.
pub struct MarkingView {
    pub words: Seq<(u64, u64)>,
    pub next: int,
}

impl MarkingView {
    /// A pass that has marked nothing.
    pub open spec fn begin(pfns: Seq<u64>) -> MarkingView {
        MarkingView { words: listing(words_of(pfns)), next: 0 }
    }

    /// Whether the words lie within the bitmap.
    pub open spec fn wf(self) -> bool {
        &&& 0 <= self.next <= self.words.len()
        &&& forall|i: int|
            0 <= i < self.words.len() ==> (#[trigger] self.words[i]).0 <= u64::MAX / 64
    }

    /// What is written over a word that was read.
    pub open spec fn written(self, word: u64) -> u64 {
        word | self.words[self.next].1
    }

    /// The bitmap after the rest of the pass.
    pub open spec fn marked(self, bitmap: Bitmap) -> Bitmap
        decreases self.words.len() - self.next,
    {
        if self.next < self.words.len() {
            let at = self.words[self.next].0;
            (MarkingView { next: self.next + 1, ..self }).marked(
                |word: u64|
                    if word == at {
                        self.written(bitmap(at))
                    } else {
                        bitmap(word)
                    },
            )
        } else {
            bitmap
        }
    }
}

/// A pass that marks pages idle.
pub struct IdleMarking {
    words: Vec<(u64, u64)>,
    next: usize,
}

impl View for IdleMarking {
    type V = MarkingView;

    closed spec fn view(&self) -> MarkingView {
        MarkingView { words: self.words@, next: self.next as int }
    }
}

impl IdleMarking {
    /// Begins to mark the pages.
    pub fn begin(pfns: &[u64]) -> (marking: IdleMarking)
        ensures
            marking@ == MarkingView::begin(pfns@),
            marking@.wf(),
    {
        IdleMarking { words: listed_words(pfns), next: 0 }
    }

    /// Where the next word lies, in bytes; none at the end.
    pub fn next_offset(&self) -> (offset: Option<u64>)
        requires
            self@.wf(),
        ensures
            offset == (if self@.next < self@.words.len() {
                Some((self@.words[self@.next].0 * 8) as u64)
            } else {
                None
            }),
            offset matches Some(offset) ==> offset == self@.words[self@.next].0 * 8,
    {
        if self.next < self.words.len() {
            Some(self.words[self.next].0 * 8)
        } else {
            None
        }
    }

    /// Takes the word that was read, and gives what to write over it.
    pub fn mark(self, bytes: &[u8]) -> (out: (IdleMarking, Vec<u8>))
        requires
            self@.wf(),
            self@.next < self@.words.len(),
            bytes@.len() == 8,
        ensures
            out.0@ == (MarkingView { next: self@.next + 1, ..self@ }),
            out.0@.wf(),
            out.1@ == native::native_bytes(self@.written(native::native_word(bytes@))),
    {
        assert(bytes@.subrange(0, 8) =~= bytes@);
        assert(self.next < self.words.len());
        let word: u64 = native::read_word(bytes, 0) | self.words[self.next].1;
        (IdleMarking { words: self.words, next: self.next + 1 }, native::word_bytes(word))
    }
}

/// The bits of one word that were asked for, by PFN.
pub open spec fn word_bits(word: u64, requested: u64, value: u64) -> Map<u64, bool> {
    Map::new(
        |pfn: u64| pfn / 64 == word && bit_is_set(requested, pfn % 64),
        |pfn: u64| bit_is_set(value, pfn % 64),
    )
}

/// How far a pass that reads idle bits has come.
#[verifier::ext_equal]
pub struct ReadingView {
    pub words: Seq<(u64, u64)>,
    pub next: int,
    pub bits: Map<u64, bool>,
}

impl ReadingView {
    /// A pass that has read nothing.
    pub open spec fn begin(pfns: Seq<u64>) -> ReadingView {
        ReadingView { words: listing(words_of(pfns)), next: 0, bits: Map::empty() }
    }

    /// Whether the words lie within the bitmap.
    pub open spec fn wf(self) -> bool {
        &&& 0 <= self.next <= self.words.len()
        &&& forall|i: int|
            0 <= i < self.words.len() ==> (#[trigger] self.words[i]).0 <= u64::MAX / 64
    }

    /// The pass after its next word.
    pub open spec fn after(self, value: u64) -> ReadingView {
        ReadingView {
            next: self.next + 1,
            bits: self.bits.union_prefer_right(
                word_bits(self.words[self.next].0, self.words[self.next].1, value),
            ),
            ..self
        }
    }

    /// What the rest of the pass comes to.
    pub open spec fn read(self, bitmap: Bitmap) -> Map<u64, bool>
        decreases self.words.len() - self.next,
    {
        if self.next < self.words.len() {
            self.after(bitmap(self.words[self.next].0)).read(bitmap)
        } else {
            self.bits
        }
    }
}

/// A pass that reads the idle bits of pages.
pub struct IdleReading {
    words: Vec<(u64, u64)>,
    next: usize,
    bits: BTreeMap<u64, bool>,
}

impl View for IdleReading {
    type V = ReadingView;

    closed spec fn view(&self) -> ReadingView {
        ReadingView { words: self.words@, next: self.next as int, bits: self.bits@ }
    }
}

proof fn lemma_lowest_bit(bits: u64, low: u64, bit: u64)
    requires
        bits != 0,
        low == vstd::std_specs::bits::u64_trailing_zeros(bits),
        bit < 64,
    ensures
        low < 64,
        bit_is_set(bits, low),
        (bits & (bits - 1) as u64) < bits,
        bit_is_set(bits & (bits - 1) as u64, bit) <==> bit_is_set(bits, bit) && bit != low,
{
    broadcast use vstd::std_specs::bits::axiom_u64_trailing_zeros;

    let shift: u64 = (64 - low) as u64;
    assert(bits << shift == 0);
    let rest: u64 = (bits - 1) as u64;
    assert((bits & (1u64 << low)) != 0) by (bit_vector)
        requires
            low < 64,
            (bits >> low) & 1u64 == 1u64,
    ;
    assert((bits & rest) < bits && (((bits & rest) & (1u64 << bit)) != 0 <==> (bits & (1u64
        << bit)) != 0 && bit != low)) by (bit_vector)
        requires
            bits != 0,
            low < 64,
            bit < 64,
            rest == bits - 1,
            shift == 64 - low,
            (bits >> low) & 1u64 == 1u64,
            bits << shift == 0,
    ;
}

/// Adds the bits of one word that were asked for, by PFN.
fn add_word_bits(bits: &mut BTreeMap<u64, bool>, word: u64, requested: u64, value: u64)
    requires
        word <= u64::MAX / 64,
    ensures
        final(bits)@ == old(bits)@.union_prefer_right(word_bits(word, requested, value)),
{
    let ghost before = bits@;
    let mut left: u64 = requested;
    proof {
        assert forall|bit: u64| !(#[trigger] bit_is_set(0, bit)) by {
            assert(0u64 & (1u64 << bit) == 0) by (bit_vector);
        }
        assert(bits@ =~= before.union_prefer_right(
            word_bits(word, requested, value).restrict(
                Set::new(|pfn: u64| !bit_is_set(left, pfn % 64)),
            ),
        ));
    }
    while left != 0
        invariant
            word <= u64::MAX / 64,
            forall|bit: u64| bit < 64 && #[trigger] bit_is_set(left, bit) ==> bit_is_set(
                requested,
                bit,
            ),
            forall|bit: u64| !(#[trigger] bit_is_set(0, bit)),
            bits@ == before.union_prefer_right(
                word_bits(word, requested, value).restrict(
                    Set::new(|pfn: u64| !bit_is_set(left, pfn % 64)),
                ),
            ),
        decreases left,
    {
        let ghost had = left;
        let ghost listed = bits@;
        let bit: u64 = left.trailing_zeros() as u64;
        proof {
            lemma_lowest_bit(left, bit, 0);
            assert forall|other: u64| other < 64 implies (#[trigger] bit_is_set(
                left & (left - 1) as u64,
                other,
            ) <==> bit_is_set(left, other) && other != bit) by {
                lemma_lowest_bit(left, bit, other);
            }
        }
        let pfn: u64 = word * 64 + bit;
        bits.insert(pfn, value & (1u64 << bit) != 0);
        left = left & (left - 1);
        proof {
            assert(pfn / 64 == word && pfn % 64 == bit);
            let now = word_bits(word, requested, value).restrict(
                Set::new(|pfn: u64| !bit_is_set(left, pfn % 64)),
            );
            assert forall|other: u64| #[trigger] now.contains_key(other) <==> other == pfn || (
            word_bits(word, requested, value).contains_key(other) && !bit_is_set(
                had,
                other % 64,
            )) by {
                assert(bit_is_set(left, other % 64) <==> bit_is_set(had, other % 64) && other % 64
                    != bit);
                if other / 64 == word && other % 64 == bit {
                    assert(other == pfn);
                }
            }
            assert(bits@ =~= before.union_prefer_right(now));
        }
    }
    proof {
        assert(word_bits(word, requested, value).restrict(
            Set::new(|pfn: u64| !bit_is_set(left, pfn % 64)),
        ) =~= word_bits(word, requested, value));
    }
}

impl IdleReading {
    /// Begins to read the bits of the pages.
    pub fn begin(pfns: &[u64]) -> (reading: IdleReading)
        ensures
            reading@ == ReadingView::begin(pfns@),
            reading@.wf(),
    {
        IdleReading { words: listed_words(pfns), next: 0, bits: BTreeMap::new() }
    }

    /// Where the next word lies, in bytes; none at the end.
    pub fn next_offset(&self) -> (offset: Option<u64>)
        requires
            self@.wf(),
        ensures
            offset == (if self@.next < self@.words.len() {
                Some((self@.words[self@.next].0 * 8) as u64)
            } else {
                None
            }),
            offset matches Some(offset) ==> offset == self@.words[self@.next].0 * 8,
    {
        if self.next < self.words.len() {
            Some(self.words[self.next].0 * 8)
        } else {
            None
        }
    }

    /// Takes the word that was read.
    pub fn absorb(self, bytes: &[u8]) -> (reading: IdleReading)
        requires
            self@.wf(),
            self@.next < self@.words.len(),
            bytes@.len() == 8,
        ensures
            reading@ == self@.after(native::native_word(bytes@)),
            reading@.wf(),
    {
        assert(bytes@.subrange(0, 8) =~= bytes@);
        assert(self.next < self.words.len());
        let value: u64 = native::read_word(bytes, 0);
        let (word, requested) = self.words[self.next];
        let mut bits = self.bits;
        add_word_bits(&mut bits, word, requested, value);
        IdleReading { words: self.words, next: self.next + 1, bits }
    }

    /// The bits read so far, by PFN.
    pub fn into_bits(self) -> (bits: BTreeMap<u64, bool>)
        ensures
            bits@ == self@.bits,
    {
        self.bits
    }
}

/// The word that holds the bit of a PFN is listed from `from` on, and with the
/// bit set.
spec fn lists_pfn(words: Seq<(u64, u64)>, from: int, pfn: u64) -> bool {
    exists|i: int|
        from <= i < words.len() && (#[trigger] words[i]).0 == pfn / 64 && bit_is_set(
            words[i].1,
            pfn % 64,
        )
}

/// Whether no word is listed twice.
spec fn are_distinct(words: Seq<(u64, u64)>) -> bool {
    forall|i: int, j: int|
        0 <= i < j < words.len() ==> (#[trigger] words[i]).0 != (#[trigger] words[j]).0
}

/// The words of PFNs are listed once each, with the bits of the PFNs.
proof fn lemma_listing_holds_the_pfns(pfns: Seq<u64>)
    ensures
        are_distinct(listing(words_of(pfns))),
        forall|pfn: u64|
            #![trigger pfns.contains(pfn)]
            pfns.contains(pfn) <==> lists_pfn(listing(words_of(pfns)), 0, pfn),
{
    let words = words_of(pfns);
    lemma_words_are_finite(pfns);
    ordered::lemma_listing_exists(words.dom());
    law_words_hold_the_pfns(pfns);
    let keys = ordered::ascending(words.dom());
    let list = listing(words);
    assert forall|pfn: u64|
        #![trigger pfns.contains(pfn)]
        pfns.contains(pfn) <==> lists_pfn(list, 0, pfn) by {
        if pfns.contains(pfn) {
            assert(words.dom().contains(pfn / 64));
            let i = choose|i: int| 0 <= i < keys.len() && keys[i] == pfn / 64;
            assert(list[i].0 == pfn / 64);
        }
        if lists_pfn(list, 0, pfn) {
            let i = choose|i: int|
                0 <= i < list.len() && (#[trigger] list[i]).0 == pfn / 64 && bit_is_set(
                    list[i].1,
                    pfn % 64,
                );
            assert(keys.contains(keys[i]));
            assert(words.dom().contains(keys[i]));
        }
    }
}

proof fn lemma_words_are_finite(pfns: Seq<u64>)
    ensures
        words_of(pfns).dom().finite(),
    decreases pfns.len(),
{
    if pfns.len() > 0 {
        lemma_words_are_finite(pfns.drop_last());
    }
}

impl MarkingView {
    proof fn lemma_marked(self, bitmap: Bitmap, pfn: u64)
        requires
            0 <= self.next <= self.words.len(),
            are_distinct(self.words),
        ensures
            is_idle(self.marked(bitmap), pfn) <==> is_idle(bitmap, pfn) || lists_pfn(
                self.words,
                self.next,
                pfn,
            ),
        decreases self.words.len() - self.next,
    {
        if self.next < self.words.len() {
            let at = self.words[self.next].0;
            let mask = self.words[self.next].1;
            let now = |word: u64|
                if word == at {
                    self.written(bitmap(at))
                } else {
                    bitmap(word)
                };
            let rest = MarkingView { next: self.next + 1, ..self };
            rest.lemma_marked(now, pfn);
            let old_word = bitmap(at);
            let bit = pfn % 64;
            assert(((old_word | mask) & (1u64 << bit)) != 0 <==> (old_word & (1u64 << bit)) != 0
                || (mask & (1u64 << bit)) != 0) by (bit_vector)
                requires
                    bit < 64,
            ;
            if lists_pfn(self.words, self.next, pfn) {
                let i = choose|i: int|
                    self.next <= i < self.words.len() && (#[trigger] self.words[i]).0 == pfn / 64
                        && bit_is_set(self.words[i].1, pfn % 64);
                if i > self.next {
                    assert(lists_pfn(rest.words, rest.next, pfn));
                }
            }
            if lists_pfn(rest.words, rest.next, pfn) {
                let i = choose|i: int|
                    rest.next <= i < rest.words.len() && (#[trigger] rest.words[i]).0 == pfn / 64
                        && bit_is_set(rest.words[i].1, pfn % 64);
                assert(self.words[i].0 == pfn / 64);
            }
        }
    }
}

/// Marking pages sets their bits and leaves all others as they were.
pub proof fn law_marking_touches_the_marked_pages_only(pfns: Seq<u64>, bitmap: Bitmap, pfn: u64)
    ensures
        is_idle(MarkingView::begin(pfns).marked(bitmap), pfn) <==> is_idle(bitmap, pfn)
            || pfns.contains(pfn),
{
    lemma_listing_holds_the_pfns(pfns);
    MarkingView::begin(pfns).lemma_marked(bitmap, pfn);
}

impl ReadingView {
    proof fn lemma_read(self, bitmap: Bitmap, pfn: u64)
        requires
            0 <= self.next <= self.words.len(),
            are_distinct(self.words),
        ensures
            self.read(bitmap).contains_key(pfn) <==> self.bits.contains_key(pfn) || lists_pfn(
                self.words,
                self.next,
                pfn,
            ),
            lists_pfn(self.words, self.next, pfn) ==> self.read(bitmap)[pfn] == is_idle(
                bitmap,
                pfn,
            ),
            !lists_pfn(self.words, self.next, pfn) && self.bits.contains_key(pfn) ==> self.read(
                bitmap,
            )[pfn] == self.bits[pfn],
        decreases self.words.len() - self.next,
    {
        if self.next < self.words.len() {
            let rest = self.after(bitmap(self.words[self.next].0));
            rest.lemma_read(bitmap, pfn);
            if lists_pfn(self.words, self.next, pfn) {
                let i = choose|i: int|
                    self.next <= i < self.words.len() && (#[trigger] self.words[i]).0 == pfn / 64
                        && bit_is_set(self.words[i].1, pfn % 64);
                if i > self.next {
                    assert(lists_pfn(rest.words, rest.next, pfn));
                }
            }
            if lists_pfn(rest.words, rest.next, pfn) {
                let i = choose|i: int|
                    rest.next <= i < rest.words.len() && (#[trigger] rest.words[i]).0 == pfn / 64
                        && bit_is_set(rest.words[i].1, pfn % 64);
                assert(self.words[i].0 == pfn / 64);
            }
        }
    }
}

/// What is read is the bit of each of the pages, and nothing else.
pub proof fn law_reading_gives_the_bits_of_the_pages(pfns: Seq<u64>, bitmap: Bitmap)
    ensures
        ReadingView::begin(pfns).read(bitmap) == Map::new(
            |pfn: u64| pfns.contains(pfn),
            |pfn: u64| is_idle(bitmap, pfn),
        ),
{
    lemma_listing_holds_the_pfns(pfns);
    assert forall|pfn: u64| #[trigger] pfns.contains(pfn) <==> lists_pfn(
        listing(words_of(pfns)),
        0,
        pfn,
    ) by {}
    let read = ReadingView::begin(pfns).read(bitmap);
    let wanted = Map::new(|pfn: u64| pfns.contains(pfn), |pfn: u64| is_idle(bitmap, pfn));
    assert forall|pfn: u64| #[trigger] read.contains_key(pfn) <==> wanted.contains_key(pfn) by {
        ReadingView::begin(pfns).lemma_read(bitmap, pfn);
    }
    assert forall|pfn: u64| #[trigger] read.contains_key(pfn) implies read[pfn] == wanted[pfn] by {
        ReadingView::begin(pfns).lemma_read(bitmap, pfn);
    }
    assert(read =~= wanted);
}

/// What is read of any pages after marking some is, for exactly the pages
/// asked for, that they were marked or that their bit was set before.
pub proof fn law_reading_sees_the_marking(marked: Seq<u64>, asked: Seq<u64>, bitmap: Bitmap)
    ensures
        ReadingView::begin(asked).read(MarkingView::begin(marked).marked(bitmap)) == Map::new(
            |pfn: u64| asked.contains(pfn),
            |pfn: u64| marked.contains(pfn) || is_idle(bitmap, pfn),
        ),
{
    let now = MarkingView::begin(marked).marked(bitmap);
    law_reading_gives_the_bits_of_the_pages(asked, now);
    let read = ReadingView::begin(asked).read(now);
    let wanted = Map::new(
        |pfn: u64| asked.contains(pfn),
        |pfn: u64| marked.contains(pfn) || is_idle(bitmap, pfn),
    );
    assert forall|pfn: u64| #[trigger] read.contains_key(pfn) implies read[pfn] == wanted[pfn] by {
        law_marking_touches_the_marked_pages_only(marked, bitmap, pfn);
    }
    assert(read =~= wanted);
}

/// Pages that were marked idle, and that nothing touched since, are read as
/// idle.
pub proof fn law_untouched_pages_read_idle(pfns: Seq<u64>, bitmap: Bitmap, pfn: u64)
    requires
        pfns.contains(pfn),
    ensures
        ReadingView::begin(pfns).read(MarkingView::begin(pfns).marked(bitmap)).contains_pair(
            pfn,
            true,
        ),
{
    law_reading_sees_the_marking(pfns, pfns, bitmap);
}

/// A bit of a word is the one that the word shows when it is shifted down to it.
pub proof fn law_bits_are_counted_from_the_lowest(word: u64, bit: u64)
    requires
        bit < 64,
    ensures
        bit_is_set(word, bit) <==> (word >> bit) % 2 == 1,
{
    assert((word & (1u64 << bit)) != 0 <==> (word >> bit) % 2 == 1) by (bit_vector)
        requires
            bit < 64,
    ;
}

/// The bit of a page stands in the bitmap at the place that its PFN counts:
/// sixty-four to a word, the lowest first. Marking pages sets the bits of these
/// pages and leaves every other bit as it was.
pub proof fn law_marking_bit_by_bit(pfns: Seq<u64>, bitmap: Bitmap, pfn: u64)
    ensures
        ({
            let marked = MarkingView::begin(pfns).marked(bitmap);
            (marked(pfn / 64) >> (pfn % 64)) % 2 == 1 <==> (bitmap(pfn / 64) >> (pfn % 64)) % 2
                == 1 || pfns.contains(pfn)
        }),
{
    law_marking_touches_the_marked_pages_only(pfns, bitmap, pfn);
    law_bits_are_counted_from_the_lowest(bitmap(pfn / 64), pfn % 64);
    law_bits_are_counted_from_the_lowest(
        MarkingView::begin(pfns).marked(bitmap)(pfn / 64),
        pfn % 64,
    );
}

/// What is read of a page is the bit at the place that its PFN counts, and only
/// pages that were asked for are read.
pub proof fn law_reading_bit_by_bit(pfns: Seq<u64>, bitmap: Bitmap, pfn: u64)
    ensures
        ({
            let read = ReadingView::begin(pfns).read(bitmap);
            &&& read.contains_key(pfn) <==> pfns.contains(pfn)
            &&& read.contains_key(pfn) ==> (read[pfn] <==> (bitmap(pfn / 64) >> (pfn % 64)) % 2
                == 1)
        }),
{
    law_reading_gives_the_bits_of_the_pages(pfns, bitmap);
    law_bits_are_counted_from_the_lowest(bitmap(pfn / 64), pfn % 64);
}

/// A pass goes through the words of the bitmap in ascending order, each once,
/// and through those alone that hold the bit of one of its pages.
pub proof fn law_pass_visits_each_word_once(pfns: Seq<u64>, i: int, j: int)
    requires
        0 <= i < MarkingView::begin(pfns).words.len(),
    ensures
        MarkingView::begin(pfns).next == 0,
        ReadingView::begin(pfns).next == 0,
        ReadingView::begin(pfns).bits == Map::<u64, bool>::empty(),
        ReadingView::begin(pfns).words == MarkingView::begin(pfns).words,
        i < j < MarkingView::begin(pfns).words.len() ==> MarkingView::begin(pfns).words[i].0
            < MarkingView::begin(pfns).words[j].0,
        exists|k: int|
            0 <= k < pfns.len() && #[trigger] pfns[k] / 64 == MarkingView::begin(pfns).words[i].0,
{
    let words = words_of(pfns);
    lemma_words_are_finite(pfns);
    ordered::lemma_listing_exists(words.dom());
    law_words_hold_the_pfns(pfns);
    let keys = ordered::ascending(words.dom());
    assert(keys.contains(keys[i]));
    assert(words.dom().contains(keys[i]));
    assert(words.contains_key(keys[i]));
    if i < j < keys.len() {
        assert(keys[i] < keys[j]);
    }
}

/// The word of a page holds its bit, and holds the bits of the given pages
/// alone.
pub proof fn law_words_bit_by_bit(pfns: Seq<u64>, pfn: u64)
    ensures
        pfns.contains(pfn) <==> words_of(pfns).contains_key(pfn / 64) && (words_of(pfns)[pfn / 64]
            >> (pfn % 64)) % 2 == 1,
{
    law_words_hold_the_pfns(pfns);
    assert(pfns.contains(pfn) || !pfns.contains(pfn));
    law_bits_are_counted_from_the_lowest(words_of(pfns)[pfn / 64], pfn % 64);
}

} // verus!
