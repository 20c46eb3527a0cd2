use vstd::prelude::*;

use crate::error::TopologyError;
use crate::incidence::{DegreeLayout, lemma_words_before_monotone, word_count, words_before};

verus! {

/// Whether bit `bit` of `word` is set.
pub open spec fn bit_set(word: u64, bit: u64) -> bool {
    word & (1u64 << bit) != 0
}

/// Membership of simplex `index` of degree `degree` in word-aligned packed
/// masks whose degree segments follow the basis sizes `counts`.
pub open spec fn mask_bit(words: Seq<u64>, counts: Seq<usize>, degree: int, index: int) -> bool {
    bit_set(words[words_before(counts, degree) + index / 64], (index % 64) as u64)
}

/// A represented simplex of a degree layout.
pub open spec fn in_layout(counts: Seq<usize>, degree: int, index: int) -> bool {
    0 <= degree < counts.len() && 0 <= index < counts[degree]
}

/// A bit slot of a degree segment: a represented simplex or segment padding.
pub open spec fn in_segment(counts: Seq<usize>, degree: int, slot: int) -> bool {
    0 <= degree < counts.len() && 0 <= slot < 64 * word_count(counts[degree] as int)
}

/// Words of a packed mask over all degrees of `counts`.
pub open spec fn total_words(counts: Seq<usize>) -> int {
    words_before(counts, counts.len() as int)
}

/// Every padding bit after the last simplex of a degree is clear.
pub open spec fn padding_clear(words: Seq<u64>, counts: Seq<usize>) -> bool {
    forall|degree: int, slot: int|
        #![trigger mask_bit(words, counts, degree, slot)]
        in_segment(counts, degree, slot) && counts[degree] <= slot ==> !mask_bit(
            words,
            counts,
            degree,
            slot,
        )
}

/// The memberships of one degree, in index order.
pub open spec fn degree_bits(words: Seq<u64>, counts: Seq<usize>, degree: int) -> Seq<bool> {
    Seq::new(counts[degree] as nat, |index: int| mask_bit(words, counts, degree, index))
}

proof fn lemma_bit_or(word: u64, bit: u64, other: u64)
    requires
        bit < 64,
        other < 64,
    ensures
        bit_set(word | (1u64 << bit), other) == (bit == other || bit_set(word, other)),
{
    assert((word | (1u64 << bit)) & (1u64 << other) != 0 <==> (bit == other || word & (1u64
        << other) != 0)) by (bit_vector)
        requires
            bit < 64,
            other < 64,
    ;
}

proof fn lemma_bit_clear(word: u64, bit: u64, other: u64)
    requires
        bit < 64,
        other < 64,
    ensures
        bit_set(word & !(1u64 << bit), other) == (bit != other && bit_set(word, other)),
{
    assert((word & !(1u64 << bit)) & (1u64 << other) != 0 <==> (bit != other && word & (1u64
        << other) != 0)) by (bit_vector)
        requires
            bit < 64,
            other < 64,
    ;
}

proof fn lemma_zero_clear(bit: u64)
    requires
        bit < 64,
    ensures
        !bit_set(0u64, bit),
{
    assert(0u64 & (1u64 << bit) == 0) by (bit_vector);
}

/// A slot of a degree segment lies in that segment's words.
pub proof fn lemma_slot_word(counts: Seq<usize>, degree: int, slot: int)
    requires
        in_segment(counts, degree, slot),
    ensures
        0 <= words_before(counts, degree) <= words_before(counts, degree) + slot / 64 < words_before(
            counts,
            degree + 1,
        ) <= total_words(counts),
        0 <= slot % 64 < 64,
{
    lemma_words_before_monotone(counts, 0, degree);
    lemma_words_before_monotone(counts, degree + 1, counts.len() as int);
    assert(words_before(counts, degree + 1) == words_before(counts, degree) + word_count(
        counts[degree] as int,
    ));
}

/// Distinct slots of a layout occupy distinct bits.
proof fn lemma_slots_distinct(
    counts: Seq<usize>,
    degree: int,
    slot: int,
    other_degree: int,
    other_slot: int,
)
    requires
        in_segment(counts, degree, slot),
        in_segment(counts, other_degree, other_slot),
        degree != other_degree || slot != other_slot,
    ensures
        words_before(counts, degree) + slot / 64 != words_before(counts, other_degree) + other_slot
            / 64 || slot % 64 != other_slot % 64,
{
    lemma_slot_word(counts, degree, slot);
    lemma_slot_word(counts, other_degree, other_slot);
    if degree < other_degree {
        lemma_words_before_monotone(counts, degree + 1, other_degree);
    } else if other_degree < degree {
        lemma_words_before_monotone(counts, other_degree + 1, degree);
    }
}

/// Canonical all-degree membership with word-aligned degree segments.
///
/// Logical lengths and offsets remain owned by the degree layout; this value
/// owns only the packed words.
#[derive(Debug, PartialEq, Eq)]
pub struct PackedDegreeMasks {
    words: Vec<u64>,
}

impl PackedDegreeMasks {
    pub closed spec fn spec_words(&self) -> Seq<u64> {
        self.words@
    }

    pub fn words(&self) -> (r: &[u64])
        ensures
            r@ == self.spec_words(),
    {
        self.words.as_slice()
    }

    /// Membership of one simplex; `DegreeOutside` or `MaskIndexOutside` when
    /// the layout does not represent it.
    pub fn contains(&self, degree: usize, index: usize, layout: &DegreeLayout) -> (r: Result<
        bool,
        TopologyError,
    >)
        requires
            total_words(layout.spec_counts()) <= self.spec_words().len(),
        ensures
            degree >= layout.spec_counts().len() ==> r == Err::<bool, TopologyError>(
                TopologyError::DegreeOutside(degree),
            ),
            degree < layout.spec_counts().len() && index >= layout.spec_counts()[degree as int]
                ==> r == Err::<bool, TopologyError>(TopologyError::MaskIndexOutside),
            in_layout(layout.spec_counts(), degree as int, index as int) ==> r == Ok::<
                bool,
                TopologyError,
            >(mask_bit(self.spec_words(), layout.spec_counts(), degree as int, index as int)),
    {
        let count = match layout.count(degree) {
            Ok(c) => c,
            Err(e) => return Err(e),
        };
        if index >= count {
            return Err(TopologyError::MaskIndexOutside);
        }
        let offsets = layout.word_offsets();
        proof {
            lemma_slot_word(layout.spec_counts(), degree as int, index as int);
            assert(offsets@[degree + 1] == words_before(layout.spec_counts(), degree + 1));
        }
        let position = offsets[degree] + index / 64;
        let bit: u64 = 1u64 << ((index % 64) as u64);
        Ok(self.words[position] & bit != 0)
    }

    /// The memberships of one degree, in index order.
    pub fn export_degree(&self, degree: usize, layout: &DegreeLayout) -> (r: Result<
        Vec<bool>,
        TopologyError,
    >)
        requires
            total_words(layout.spec_counts()) <= self.spec_words().len(),
        ensures
            degree >= layout.spec_counts().len() ==> r == Err::<Vec<bool>, TopologyError>(
                TopologyError::DegreeOutside(degree),
            ),
            degree < layout.spec_counts().len() ==> r is Ok,
            r matches Ok(v) ==> v@ == degree_bits(
                self.spec_words(),
                layout.spec_counts(),
                degree as int,
            ),
    {
        let count = match layout.count(degree) {
            Ok(c) => c,
            Err(e) => return Err(e),
        };
        let mut output: Vec<bool> = Vec::new();
        let mut i: usize = 0;
        while i < count
            invariant
                degree < layout.spec_counts().len(),
                count == layout.spec_counts()[degree as int],
                total_words(layout.spec_counts()) <= self.spec_words().len(),
                i <= count,
                output@ == degree_bits(self.spec_words(), layout.spec_counts(), degree as int).take(
                    i as int,
                ),
            decreases count - i,
        {
            let selected = match self.contains(degree, i, layout) {
                Ok(b) => b,
                Err(e) => return Err(e),
            };
            output.push(selected);
            i = i + 1;
            proof {
                assert(output@ =~= degree_bits(
                    self.spec_words(),
                    layout.spec_counts(),
                    degree as int,
                ).take(i as int));
            }
        }
        proof {
            assert(output@ =~= degree_bits(self.spec_words(), layout.spec_counts(), degree as int));
        }
        Ok(output)
    }

    /// Writes the memberships of one degree into `output`, whose length must
    /// be that degree's basis size (`MaskShape` otherwise).
    pub fn write_degree(&self, degree: usize, layout: &DegreeLayout, output: &mut [bool]) -> (r:
        Result<(), TopologyError>)
        requires
            total_words(layout.spec_counts()) <= self.spec_words().len(),
        ensures
            degree >= layout.spec_counts().len() ==> r == Err::<(), TopologyError>(
                TopologyError::DegreeOutside(degree),
            ),
            degree < layout.spec_counts().len() && old(output)@.len() != layout.spec_counts()[degree as int]
                ==> r == Err::<(), TopologyError>(TopologyError::MaskShape),
            degree < layout.spec_counts().len() && old(output)@.len() == layout.spec_counts()[degree as int]
                ==> r is Ok,
            r is Ok ==> final(output)@ == degree_bits(
                self.spec_words(),
                layout.spec_counts(),
                degree as int,
            ),
            r is Err ==> final(output)@ == old(output)@,
    {
        let count = match layout.count(degree) {
            Ok(c) => c,
            Err(e) => return Err(e),
        };
        if output.len() != count {
            return Err(TopologyError::MaskShape);
        }
        let mut i: usize = 0;
        while i < count
            invariant
                degree < layout.spec_counts().len(),
                count == layout.spec_counts()[degree as int],
                total_words(layout.spec_counts()) <= self.spec_words().len(),
                i <= count,
                output@.len() == count,
                forall|j: int|
                    0 <= j < i ==> #[trigger] output@[j] == mask_bit(
                        self.spec_words(),
                        layout.spec_counts(),
                        degree as int,
                        j,
                    ),
            decreases count - i,
        {
            let selected = match self.contains(degree, i, layout) {
                Ok(b) => b,
                Err(e) => return Err(e),
            };
            output[i] = selected;
            i = i + 1;
        }
        proof {
            assert(output@ =~= degree_bits(self.spec_words(), layout.spec_counts(), degree as int));
        }
        Ok(())
    }
}

/// Mutable construction phase of an immutable packed mask.
#[derive(Debug)]
pub struct PackedDegreeMasksBuilder<'a> {
    layout: &'a DegreeLayout,
    words: Vec<u64>,
}

impl<'a> PackedDegreeMasksBuilder<'a> {
    #[verifier::type_invariant]
    closed spec fn builder_inv(&self) -> bool {
        self.words@.len() == total_words(self.layout.spec_counts())
    }

    /// The basis sizes of the layout the builder fills.
    pub open spec fn spec_counts(&self) -> Seq<usize> {
        self.spec_layout().spec_counts()
    }

    pub closed spec fn spec_layout(&self) -> DegreeLayout {
        *self.layout
    }

    /// Membership of simplex `index` of degree `degree` so far.
    pub open spec fn bit(&self, degree: int, index: int) -> bool {
        mask_bit(self.spec_words(), self.spec_counts(), degree, index)
    }

    pub closed spec fn spec_words(&self) -> Seq<u64> {
        self.words@
    }

    /// A builder for `layout` in which no simplex is selected.
    pub fn empty(layout: &'a DegreeLayout) -> (r: Result<Self, TopologyError>)
        ensures
            r matches Ok(b) && b.spec_layout() == *layout && padding_clear(
                b.spec_words(),
                b.spec_counts(),
            ) && forall|degree: int, index: int|
                #![trigger b.bit(degree, index)]
                in_layout(layout.spec_counts(), degree, index) ==> !b.bit(degree, index),
    {
        let offsets = layout.word_offsets();
        let total = offsets[offsets.len() - 1];
        let mut words: Vec<u64> = Vec::new();
        let mut i: usize = 0;
        while i < total
            invariant
                i <= total,
                words@.len() == i,
                forall|j: int| 0 <= j < i ==> #[trigger] words@[j] == 0u64,
            decreases total - i,
        {
            words.push(0u64);
            i = i + 1;
        }
        proof {
            let counts = layout.spec_counts();
            assert(total == total_words(counts));
            assert forall|degree: int, slot: int| #[trigger]
                in_segment(counts, degree, slot) implies !mask_bit(
                words@,
                counts,
                degree,
                slot,
            ) by {
                lemma_slot_word(counts, degree, slot);
                assert(words@.len() == total_words(counts));
                assert(words@[words_before(counts, degree) + slot / 64] == 0u64);
                lemma_zero_clear((slot % 64) as u64);
            }
        }
        let builder = PackedDegreeMasksBuilder { layout, words };
        proof {
            let counts = layout.spec_counts();
            assert forall|degree: int, index: int| #![trigger builder.bit(degree, index)]
                in_layout(counts, degree, index) implies !builder.bit(degree, index) by {
                assert(in_segment(counts, degree, index));
            }
        }
        Ok(builder)
    }

    /// A builder for `layout` holding the words of `source`; `MaskShape` when
    /// `source` has another number of words than `layout` needs.
    pub fn from_mask(layout: &'a DegreeLayout, source: &PackedDegreeMasks) -> (r: Result<
        Self,
        TopologyError,
    >)
        ensures
            source.spec_words().len() != total_words(layout.spec_counts()) ==> r == Err::<
                Self,
                TopologyError,
            >(TopologyError::MaskShape),
            source.spec_words().len() == total_words(layout.spec_counts()) ==> (r matches Ok(b)
                && b.spec_layout() == *layout && b.spec_words() == source.spec_words()),
    {
        let offsets = layout.word_offsets();
        let total = offsets[offsets.len() - 1];
        let source_words = source.words();
        if source_words.len() != total {
            return Err(TopologyError::MaskShape);
        }
        let mut words: Vec<u64> = Vec::new();
        let mut i: usize = 0;
        while i < total
            invariant
                i <= total,
                total == source_words@.len(),
                words@ == source_words@.take(i as int),
            decreases total - i,
        {
            words.push(source_words[i]);
            i = i + 1;
            proof {
                assert(words@ =~= source_words@.take(i as int));
            }
        }
        proof {
            assert(words@ =~= source_words@);
        }
        Ok(PackedDegreeMasksBuilder { layout, words })
    }

    /// Selects or clears one simplex; `DegreeOutside` or `MaskIndexOutside`,
    /// with nothing changed, when the layout does not represent it.
    pub fn set(&mut self, degree: usize, index: usize, selected: bool) -> (r: Result<
        (),
        TopologyError,
    >)
        ensures
            final(self).spec_layout() == old(self).spec_layout(),
            degree >= old(self).spec_counts().len() ==> r == Err::<(), TopologyError>(
                TopologyError::DegreeOutside(degree),
            ),
            degree < old(self).spec_counts().len() && index >= old(self).spec_counts()[degree as int]
                ==> r == Err::<(), TopologyError>(TopologyError::MaskIndexOutside),
            in_layout(old(self).spec_counts(), degree as int, index as int) ==> r is Ok,
            r is Err ==> final(self).spec_words() == old(self).spec_words(),
            r is Ok ==> forall|d: int, i: int|
                #![trigger final(self).bit(d, i)]
                in_layout(old(self).spec_counts(), d, i) ==> final(self).bit(d, i) == if d
                    == degree && i == index {
                    selected
                } else {
                    old(self).bit(d, i)
                },
            padding_clear(old(self).spec_words(), old(self).spec_counts()) ==> padding_clear(
                final(self).spec_words(),
                final(self).spec_counts(),
            ),
    {
        proof {
            use_type_invariant(&*self);
        }
        let count = match self.layout.count(degree) {
            Ok(c) => c,
            Err(e) => return Err(e),
        };
        if index >= count {
            return Err(TopologyError::MaskIndexOutside);
        }
        let offsets = self.layout.word_offsets();
        let ghost counts = self.layout.spec_counts();
        proof {
            lemma_slot_word(counts, degree as int, index as int);
            assert(offsets@[degree + 1] == words_before(counts, degree + 1));
        }
        let position = offsets[degree] + index / 64;
        let shift: u64 = (index % 64) as u64;
        let bit: u64 = 1u64 << shift;
        let old_word = self.words[position];
        let new_word = if selected {
            old_word | bit
        } else {
            old_word & !bit
        };
        let ghost before = self.words@;
        let ghost after = self.words@.update(position as int, new_word);
        proof {
            assert forall|d: int, s: int| #[trigger]
                in_segment(counts, d, s) implies mask_bit(after, counts, d, s) == if d == degree
                && s == index {
                selected
            } else {
                mask_bit(before, counts, d, s)
            } by {
                lemma_slot_word(counts, d, s);
                let other = (s % 64) as u64;
                if d == degree && s == index {
                    if selected {
                        lemma_bit_or(old_word, shift, shift);
                    } else {
                        lemma_bit_clear(old_word, shift, shift);
                    }
                } else {
                    lemma_slots_distinct(counts, degree as int, index as int, d, s);
                    if words_before(counts, d) + s / 64 == position {
                        if selected {
                            lemma_bit_or(old_word, shift, other);
                        } else {
                            lemma_bit_clear(old_word, shift, other);
                        }
                    }
                }
            }
        }
        self.words[position] = new_word;
        proof {
            assert(self.words@ == after);
            assert forall|d: int, i: int| #![trigger self.bit(d, i)]
                in_layout(counts, d, i) implies self.bit(d, i) == if d == degree && i == index {
                selected
            } else {
                mask_bit(before, counts, d, i)
            } by {
                assert(in_segment(counts, d, i));
            }
        }
        Ok(())
    }

    /// Membership of one simplex so far; `DegreeOutside` or
    /// `MaskIndexOutside` when the layout does not represent it.
    pub fn contains(&self, degree: usize, index: usize) -> (r: Result<bool, TopologyError>)
        ensures
            degree >= self.spec_counts().len() ==> r == Err::<bool, TopologyError>(
                TopologyError::DegreeOutside(degree),
            ),
            degree < self.spec_counts().len() && index >= self.spec_counts()[degree as int] ==> r
                == Err::<bool, TopologyError>(TopologyError::MaskIndexOutside),
            in_layout(self.spec_counts(), degree as int, index as int) ==> r == Ok::<
                bool,
                TopologyError,
            >(self.bit(degree as int, index as int)),
    {
        proof {
            use_type_invariant(self);
        }
        let count = match self.layout.count(degree) {
            Ok(c) => c,
            Err(e) => return Err(e),
        };
        if index >= count {
            return Err(TopologyError::MaskIndexOutside);
        }
        let offsets = self.layout.word_offsets();
        proof {
            lemma_slot_word(self.layout.spec_counts(), degree as int, index as int);
            assert(offsets@[degree + 1] == words_before(self.layout.spec_counts(), degree + 1));
        }
        let position = offsets[degree] + index / 64;
        let bit: u64 = 1u64 << ((index % 64) as u64);
        Ok(self.words[position] & bit != 0)
    }

    /// The finished, immutable masks.
    pub fn finish(self) -> (r: PackedDegreeMasks)
        ensures
            r.spec_words() == self.spec_words(),
            r.spec_words().len() == total_words(self.spec_counts()),
    {
        proof {
            use_type_invariant(&self);
        }
        PackedDegreeMasks { words: self.words }
    }
}

} // verus!
