//! Compact n-gram acceptors with backoff.
//!
//! A file wraps a trie of histories written as bitmaps, with labels of 16 bits,
//! weights quantized to a byte and a bitmap of the labels in use. Payload arrays
//! borrow the input bytes; only the topology, the label indices and the 256
//! dequantized weights are owned.
use vstd::prelude::*;
use vstd::utf8::encode_utf8;

use crate::bytes::{le, read_u32, read_u64};
use crate::error::{first_of, format_error, text_with, text_with2, Error, ErrorView};
use crate::flatbuffer::{same_bytes, signed32, to_signed32};
use crate::float::{F32, F64, TOP64};
use crate::lm::LanguageModel;
use crate::louds::{
    bitmap_size, bits_in, get_bit, is_ranges, is_tree, items_left, lemma_places, links_agree,
    padding_clear, parents_of, places_of, scan_places, scan_ranges, scan_tree, starts_of,
    tree_fault,
};
use crate::text::{dec, dec_int, dec_list, push_dec, push_dec_int};
use crate::trie::{ascending, stands_at, words_in, Trie, TrieView, Words};

verus! {

/// 254 is the quantized infinity; other bytes multiply the quantum.
pub const QUANTIZED_INFINITY: u8 = 254;

#[derive(Debug, Clone, Copy, PartialEq)]
pub struct Arc {
    pub ilabel: u32,
    pub olabel: u32,
    pub weight: F64,
    pub nextstate: u32,
}

/// What a file holds.
#[verifier::ext_equal]
pub struct FstView {
    pub num_arcs: u64,
    pub num_labels: u32,
    pub quantum: F32,
    pub use_final_weights: bool,
    pub trie: TrieView,
    /// Where the futures of each state begin; one more than there are states.
    pub future_starts: Seq<u32>,
    /// The compact label of each future.
    pub future_words: Seq<u32>,
    /// States with a final weight, ascending.
    pub final_states: Seq<u32>,
    pub backoffs: Seq<u8>,
    pub final_weights: Seq<u8>,
    pub future_weights: Seq<u8>,
    pub missing_weights: Seq<u8>,
    /// The label of each compact label, ascending.
    pub external: Seq<u32>,
    /// The labels without a compact label, ascending.
    pub missing_labels: Seq<u32>,
}

/// Infinity.
pub open spec fn infinity() -> F64 {
    F64 { bits: TOP64 }
}

impl FstView {
    pub open spec fn n(self) -> int {
        self.trie.parents.len() as int
    }

    /// What a quantized weight stands for: the product is rounded as binary32 and
    /// widened behind that.
    pub open spec fn weight(self, code: u8) -> F64 {
        if code == QUANTIZED_INFINITY {
            infinity()
        } else {
            F32::of_int(code as int).product(self.quantum).widened()
        }
    }

    /// Shapes and orders that every accepted file has.
    #[verifier::opaque]
    pub open spec fn wf(self) -> bool {
        let n = self.n();
        let m = self.future_words.len() as int;
        &&& self.trie.wf()
        &&& n >= 2
        &&& self.quantum.finite() && !self.quantum.negative() && self.quantum.index() > 0
        &&& self.future_starts.len() == n + 1
        &&& self.future_starts[0] == 0
        &&& self.future_starts[n] == m
        &&& forall|s: int, t: int|
            0 <= s <= t <= n ==> #[trigger] self.future_starts[s]
                <= #[trigger] self.future_starts[t]
        &&& forall|s: int|
            0 <= s < n ==> ascending(
                self.future_words,
                #[trigger] self.future_starts[s] as int,
                self.future_starts[s + 1] as int,
            )
        &&& forall|i: int|
            0 <= i < m ==> 0 < #[trigger] self.future_words[i] < self.external.len()
        &&& ascending(self.final_states, 0, self.final_states.len() as int)
        &&& forall|i: int| 0 <= i < self.final_states.len() ==> (#[trigger] self.final_states[i]) < n
        &&& self.final_weights.len() == self.final_states.len()
        &&& self.backoffs.len() == n + 1
        &&& self.future_weights.len() == m + 1
        &&& self.missing_weights.len() == self.missing_labels.len() + 1
        &&& ascending(self.external, 0, self.external.len() as int)
        &&& ascending(self.missing_labels, 0, self.missing_labels.len() as int)
        &&& self.external.len() + self.missing_labels.len() == self.num_labels <= 65536
        &&& self.external.len() > 0 && self.external[0] == 0
        &&& forall|i: int|
            0 <= i < self.external.len() ==> (#[trigger] self.external[i]) < self.num_labels
        &&& forall|i: int|
            0 <= i < self.missing_labels.len() ==> (#[trigger] self.missing_labels[i])
                < self.num_labels
        &&& forall|l: u32|
            l < self.num_labels ==> self.external.contains(l) != #[trigger] self.missing_labels.contains(
                l,
            )
        &&& self.num_arcs == m + n - 1 + self.missing_labels.len()
    }

    /// The literal final weight; infinity means nonfinal.
    pub open spec fn literal_final(self, s: int) -> F64 {
        if !self.use_final_weights {
            F64 { bits: 0 }
        } else if self.final_states.contains(s as u32) {
            self.weight(self.final_weights[self.final_states.index_of(s as u32)])
        } else {
            infinity()
        }
    }

    /// The arc from a state without backoff, if it has one: its end and weight.
    pub open spec fn direct(self, s: int, label: u32) -> Option<(u32, F64)> {
        if label == 0 || label >= self.num_labels {
            None
        } else if self.missing_labels.contains(label) {
            if s != 0 {
                None
            } else {
                Some((0, self.weight(self.missing_weights[self.missing_labels.index_of(label)])))
            }
        } else {
            let compact = self.external.index_of(label) as u32;
            let lo = self.future_starts[s] as int;
            let hi = self.future_starts[s + 1] as int;
            if exists|i: int| stands_at(self.future_words, compact, lo, hi, i) {
                let i = choose|i: int| stands_at(self.future_words, compact, lo, hi, i);
                Some((self.trie.target(s, compact), self.weight(self.future_weights[i])))
            } else {
                None
            }
        }
    }

    /// The backoff arc of a state other than the root.
    pub open spec fn backoff_arc(self, s: int) -> Arc {
        Arc {
            ilabel: 0,
            olabel: 0,
            weight: self.weight(self.backoffs[s]),
            nextstate: self.trie.parents[s],
        }
    }

    /// The arc of the `i`th future, which belongs to state `s`.
    pub open spec fn future_arc(self, s: int, i: int) -> Arc {
        let label = self.external[self.future_words[i] as int];
        Arc {
            ilabel: label,
            olabel: label,
            weight: self.weight(self.future_weights[i]),
            nextstate: self.trie.target(s, self.future_words[i]),
        }
    }

    /// The arcs of futures from the `i`th on, up to the state's last.
    pub open spec fn future_arcs(self, s: int, i: int) -> Seq<Arc> {
        Seq::new(
            (self.future_starts[s + 1] - i) as nat,
            |k: int| self.future_arc(s, i + k),
        )
    }

    /// The arc of the `i`th missing label, at the root.
    pub open spec fn missing_arc(self, i: int) -> Arc {
        Arc {
            ilabel: self.missing_labels[i],
            olabel: self.missing_labels[i],
            weight: self.weight(self.missing_weights[i]),
            nextstate: 0,
        }
    }

    /// The arcs of missing labels from the `i`th on.
    pub open spec fn missing_arcs(self, i: int) -> Seq<Arc> {
        Seq::new((self.missing_labels.len() - i) as nat, |k: int| self.missing_arc(i + k))
    }

    /// The arcs of a state: the backoff, and then the others in label order.
    pub open spec fn arcs(self, s: int) -> Seq<Arc> {
        if s == 0 {
            merge_arcs(self.missing_arcs(0), self.future_arcs(0, self.future_starts[0] as int))
        } else {
            seq![self.backoff_arc(s)] + self.future_arcs(s, self.future_starts[s] as int)
        }
    }

    /// The end and the cost of a label from a state: backoff is taken only where
    /// the label has no arc.
    pub open spec fn advance_from(self, s: int, label: u32, cost: F64) -> Option<(u32, F64)>
        decreases s,
    {
        match self.direct(s, label) {
            Some((target, weight)) => {
                let total = cost.sum(weight);
                if total.finite() {
                    Some((target, total))
                } else {
                    None
                }
            },
            None => if s <= 0 || self.trie.parents[s] >= s {
                None
            } else {
                self.advance_from(
                    self.trie.parents[s] as int,
                    label,
                    cost.sum(self.weight(self.backoffs[s])),
                )
            },
        }
    }

    /// The cost of ending at a state, reached through backoff where the state has
    /// no finite final weight.
    pub open spec fn finish_from(self, s: int, cost: F64) -> F64
        decreases s,
    {
        let last = self.literal_final(s);
        if last.finite() || s <= 0 || self.trie.parents[s] >= s {
            cost.sum(last)
        } else {
            self.finish_from(
                self.trie.parents[s] as int,
                cost.sum(self.weight(self.backoffs[s])),
            )
        }
    }
}

/// Two sequences of arcs in label order as one.
pub open spec fn merge_arcs(a: Seq<Arc>, b: Seq<Arc>) -> Seq<Arc>
    decreases a.len() + b.len(),
{
    if a.len() == 0 {
        b
    } else if b.len() == 0 {
        a
    } else if a[0].ilabel < b[0].ilabel {
        seq![a[0]] + merge_arcs(a.drop_first(), b)
    } else {
        seq![b[0]] + merge_arcs(a, b.drop_first())
    }
}

/// The number at a position of a file.
pub open spec fn num(data: Seq<u8>, pos: int, width: int) -> nat {
    le(data.subrange(pos, pos + width))
}

/// How many states, futures, finals, labels and fallback weights a file says it
/// has.
pub open spec fn state_count(data: Seq<u8>) -> nat {
    num(data, 54, 8)
}

pub open spec fn future_count(data: Seq<u8>) -> nat {
    num(data, 104, 8)
}

pub open spec fn final_count(data: Seq<u8>) -> nat {
    num(data, 112, 8)
}

pub open spec fn label_count(data: Seq<u8>) -> nat {
    num(data, 70, 4)
}

pub open spec fn missing_count(data: Seq<u8>) -> nat {
    num(data, 74, 4)
}

/// Where the parts of a file begin, each behind the one before.
pub open spec fn future_bits_at(data: Seq<u8>) -> int {
    120int + bitmap_size(2 * state_count(data) + 1)
}

pub open spec fn final_bits_at(data: Seq<u8>) -> int {
    future_bits_at(data) + bitmap_size(future_count(data) + state_count(data) + 1)
}

pub open spec fn context_words_at(data: Seq<u8>) -> int {
    final_bits_at(data) + bitmap_size(state_count(data))
}

pub open spec fn future_words_at(data: Seq<u8>) -> int {
    context_words_at(data) + 2 * (state_count(data) + 1)
}

pub open spec fn backoffs_at(data: Seq<u8>) -> int {
    future_words_at(data) + 2 * future_count(data)
}

pub open spec fn final_weights_at(data: Seq<u8>) -> int {
    backoffs_at(data) + state_count(data) + 1
}

pub open spec fn future_weights_at(data: Seq<u8>) -> int {
    final_weights_at(data) + final_count(data)
}

pub open spec fn storage_end(data: Seq<u8>) -> int {
    future_weights_at(data) + future_count(data) + 1
}

pub open spec fn label_bits_at(data: Seq<u8>) -> int {
    storage_end(data) + (8 - storage_end(data) % 8) % 8
}

pub open spec fn missing_weights_at(data: Seq<u8>) -> int {
    label_bits_at(data) + bitmap_size(label_count(data))
}

pub open spec fn file_end(data: Seq<u8>) -> int {
    missing_weights_at(data) + missing_count(data)
}

/// The bytes of a bitmap.
pub open spec fn bitmap_at(data: Seq<u8>, pos: int, count: nat) -> Seq<u8> {
    data.subrange(pos, pos + bitmap_size(count))
}

/// That the fixed part of a file is as it must be.
pub open spec fn header_valid(data: Seq<u8>) -> bool {
    let n = state_count(data);
    let m = future_count(data);
    let quantum = F32 { bits: num(data, 79, 4) as u32 };
    &&& data.len() >= 120
    &&& num(data, 0, 4) == 0x7eb2_fdd6
    &&& num(data, 4, 4) == 10
    &&& data.subrange(8, 18) == encode_utf8("compact_lm"@)
    &&& num(data, 18, 4) == 8
    &&& data.subrange(22, 30) == encode_utf8("standard"@)
    &&& num(data, 30, 4) == 2
    &&& num(data, 34, 4) == 4
    &&& num(data, 46, 8) == 1
    &&& 1 < n < 0x1_0000_0000
    &&& data[78] <= 1
    &&& 0 < label_count(data) <= 65536
    &&& missing_count(data) <= label_count(data)
    &&& quantum.finite() && !quantum.negative() && quantum.index() > 0
    &&& num(data, 96, 8) == n
    &&& m < 0x1_0000_0000
    &&& final_count(data) <= n
    &&& m + n + 1 < 0x1_0000_0000
    &&& m + n - 1 + missing_count(data) == num(data, 62, 8)
}

/// That the parts of a file fill it, with clear padding in the bitmaps.
pub open spec fn layout_valid(data: Seq<u8>) -> bool {
    let n = state_count(data);
    let m = future_count(data);
    &&& 2 * n + 1 <= usize::MAX
    &&& data.len() == file_end(data)
    &&& storage_end(data) - 96 == num(data, 83, 8)
    &&& padding_clear(bitmap_at(data, 120, 2 * n + 1), 2 * n + 1)
    &&& padding_clear(bitmap_at(data, future_bits_at(data), m + n + 1), m + n + 1)
    &&& padding_clear(bitmap_at(data, final_bits_at(data), n), n)
    &&& padding_clear(
        bitmap_at(data, label_bits_at(data), label_count(data)),
        label_count(data),
    )
}

/// The bits of the four bitmaps.
pub open spec fn context_bits(data: Seq<u8>) -> Seq<bool> {
    let count = 2 * state_count(data) + 1;
    bits_in(bitmap_at(data, 120, count), count)
}

pub open spec fn future_bits(data: Seq<u8>) -> Seq<bool> {
    let count = future_count(data) + state_count(data) + 1;
    bits_in(bitmap_at(data, future_bits_at(data), count), count)
}

pub open spec fn final_bits(data: Seq<u8>) -> Seq<bool> {
    let count = state_count(data);
    bits_in(bitmap_at(data, final_bits_at(data), count), count)
}

pub open spec fn label_bits(data: Seq<u8>) -> Seq<bool> {
    let count = label_count(data);
    bits_in(bitmap_at(data, label_bits_at(data), count), count)
}

/// What a valid file holds.
pub open spec fn contents(data: Seq<u8>) -> FstView {
    FstView {
        num_arcs: (num(data, 62, 8) - 1) as u64,
        num_labels: label_count(data) as u32,
        quantum: F32 { bits: num(data, 79, 4) as u32 },
        use_final_weights: data[78] != 0,
        trie: TrieView {
            words: words_in(data.subrange(context_words_at(data), future_words_at(data))),
            parents: parents_of(context_bits(data)),
            child_starts: starts_of(context_bits(data)),
        },
        future_starts: starts_of(future_bits(data)),
        future_words: words_in(data.subrange(future_words_at(data), backoffs_at(data))),
        final_states: places_of(final_bits(data), true),
        backoffs: data.subrange(backoffs_at(data), final_weights_at(data)),
        final_weights: data.subrange(final_weights_at(data), future_weights_at(data)),
        future_weights: data.subrange(future_weights_at(data), storage_end(data)),
        missing_weights: data.subrange(missing_weights_at(data), file_end(data)),
        external: places_of(label_bits(data), true),
        missing_labels: places_of(label_bits(data), false),
    }
}

/// That labels in a range are in use and ascend.
pub open spec fn range_valid(words: Seq<u32>, lo: int, hi: int, limit: int) -> bool {
    &&& ascending(words, lo, hi)
    &&& forall|i: int| lo <= i < hi ==> (#[trigger] words[i]) < limit
}

/// That the labels of every state's range are in use and ascend.
pub open spec fn ranges_valid(words: Seq<u32>, starts: Seq<u32>, n: int, limit: int) -> bool {
    forall|s: int|
        0 <= s < n ==> range_valid(
            words,
            #[trigger] starts[s] as int,
            starts[s + 1] as int,
            limit,
        )
}

/// That contents are labelled as they must be.
pub open spec fn labels_valid(v: FstView) -> bool {
    &&& v.trie.words[0] == 65535
    &&& v.trie.words[1] == 0
    &&& ranges_valid(v.trie.words, v.trie.child_starts, v.n(), v.external.len() as int)
    &&& ranges_valid(v.future_words, v.future_starts, v.n(), v.external.len() as int)
    &&& forall|i: int| 0 <= i < v.future_words.len() ==> (#[trigger] v.future_words[i]) != 0
}

/// That a file is a compact n-gram model.
pub open spec fn valid(data: Seq<u8>) -> bool {
    let n = state_count(data);
    &&& header_valid(data)
    &&& layout_valid(data)
    &&& is_tree(context_bits(data), n)
    &&& is_ranges(future_bits(data), n, future_count(data))
    &&& places_of(final_bits(data), true).len() == final_count(data)
    &&& label_bits(data)[0]
    &&& places_of(label_bits(data), false).len() + 1 == missing_count(data)
    &&& labels_valid(contents(data))
}

/// What a file holds, if it is valid.
pub open spec fn fst_in(data: Seq<u8>) -> Option<FstView> {
    if valid(data) {
        Some(contents(data))
    } else {
        None
    }
}

/// What is said of bytes that are not there.
pub open spec fn missing_bytes(data: Seq<u8>, pos: int, count: int) -> Option<ErrorView> {
    if pos + count > usize::MAX {
        Some(ErrorView::Format("FST byte range overflows at byte "@ + dec(pos as nat)))
    } else if pos + count > data.len() {
        Some(
            ErrorView::Format(
                "truncated FST at byte "@ + dec(pos as nat) + " (need "@ + dec(count as nat)
                    + " bytes)"@,
            ),
        )
    } else {
        None
    }
}

/// What is wrong with a type name.
pub open spec fn name_problem(data: Seq<u8>, pos: int) -> Option<ErrorView> {
    let size = num(data, pos, 4);
    first_of(
        missing_bytes(data, pos, 4),
        if size > 0x7fff_ffff {
            Some(
                ErrorView::Format(
                    "invalid FST type string length "@ + dec_int(signed32(size as int)),
                ),
            )
        } else {
            first_of(
                missing_bytes(data, pos + 4, size as int),
                if exists|i: int| pos + 4 <= i < pos + 4 + size && #[trigger] data[i] >= 128 {
                    Some(ErrorView::Format("non-ASCII FST type"@))
                } else {
                    None
                },
            )
        },
    )
}

/// Where a type name ends.
pub open spec fn name_end(data: Seq<u8>, pos: int) -> int {
    pos + 4 + num(data, pos, 4)
}

/// The bytes of a type name.
pub open spec fn name_at(data: Seq<u8>, pos: int) -> Seq<u8> {
    data.subrange(pos + 4, name_end(data, pos))
}

/// What is said of a file of another type.
pub open spec fn other_type(data: Seq<u8>, second: int, pos: int) -> ErrorView {
    ErrorView::Format(
        "unsupported FST header: type "@ + dec_list(
            name_at(data, 4).map_values(|x: u8| x as nat),
        ) + ", arcs "@ + dec_list(name_at(data, second).map_values(|x: u8| x as nat))
            + ", version "@ + dec(num(data, pos, 4)) + ", flags "@ + dec(num(data, pos + 4, 4)),
    )
}

/// What is wrong behind the two type names, where the second begins at `second`.
pub open spec fn types_problem(data: Seq<u8>, second: int) -> Option<ErrorView> {
    let pos = name_end(data, second);
    let states = num(data, pos + 24, 8);
    let start = num(data, pos + 16, 8);
    first_of(
        missing_bytes(data, pos, 4),
        first_of(
            missing_bytes(data, pos + 4, 4),
            first_of(
                missing_bytes(data, pos + 8, 8),
                first_of(
                    missing_bytes(data, pos + 16, 8),
                    first_of(
                        missing_bytes(data, pos + 24, 8),
                        first_of(
                            missing_bytes(data, pos + 32, 8),
                            if name_at(data, 4) != encode_utf8("compact_lm"@) || name_at(
                                data,
                                second,
                            ) != encode_utf8("standard"@) || num(data, pos, 4) != 2 || num(
                                data,
                                pos + 4,
                                4,
                            ) != 4 {
                                Some(other_type(data, second, pos))
                            } else if states <= 1 || states >= 0x1_0000_0000 || start != 1 {
                                Some(
                                    ErrorView::Format(
                                        "invalid compact LM states/start: "@ + dec(states) + "/"@
                                            + dec(start),
                                    ),
                                )
                            } else {
                                None
                            },
                        ),
                    ),
                ),
            ),
        ),
    )
}

/// What is wrong up to the counts.
pub open spec fn preamble_problem(data: Seq<u8>) -> Option<ErrorView> {
    first_of(
        missing_bytes(data, 0, 4),
        if num(data, 0, 4) != 0x7eb2_fdd6 {
            Some(ErrorView::Format("not an OpenFst binary (bad magic)"@))
        } else {
            first_of(
                name_problem(data, 4),
                first_of(
                    name_problem(data, name_end(data, 4)),
                    types_problem(data, name_end(data, 4)),
                ),
            )
        },
    )
}

/// What is wrong with the counts.
pub open spec fn counts_problem(data: Seq<u8>) -> Option<ErrorView> {
    let n = state_count(data);
    let m = future_count(data);
    let quantum = F32 { bits: num(data, 79, 4) as u32 };
    first_of(
        missing_bytes(data, 70, 4),
        first_of(
            missing_bytes(data, 74, 4),
            first_of(
                missing_bytes(data, 78, 1),
                first_of(
                    missing_bytes(data, 79, 4),
                    first_of(
                        missing_bytes(data, 83, 8),
                        if data[78] > 1 {
                            Some(
                                ErrorView::Format(
                                    "invalid use-final flag "@ + dec(data[78] as nat),
                                ),
                            )
                        } else if label_count(data) == 0 || label_count(data) > 65536
                            || missing_count(data) > label_count(data) {
                            Some(
                                ErrorView::Format(
                                    "invalid label counts: "@ + dec(label_count(data))
                                        + " labels, "@ + dec(missing_count(data))
                                        + " fallback weights"@,
                                ),
                            )
                        } else if !quantum.finite() || quantum.negative() || quantum.index() == 0 {
                            Some(
                                ErrorView::Format("invalid weight quantum "@ + quantum.text()),
                            )
                        } else {
                            first_of(
                                missing_bytes(data, 91, 5),
                                first_of(
                                    missing_bytes(data, 96, 8),
                                    first_of(
                                        missing_bytes(data, 104, 8),
                                        first_of(
                                            missing_bytes(data, 112, 8),
                                            if num(data, 96, 8) != n || m >= 0x1_0000_0000
                                                || final_count(data) > n || m + n + 1
                                                >= 0x1_0000_0000 || m + n - 1 + missing_count(
                                                data,
                                            ) != num(data, 62, 8) {
                                                Some(
                                                    ErrorView::Format(
                                                        "header and embedded state/arc counts disagree"@,
                                                    ),
                                                )
                                            } else {
                                                None
                                            },
                                        ),
                                    ),
                                ),
                            )
                        },
                    ),
                ),
            ),
        ),
    )
}

/// What is wrong with a bitmap.
pub open spec fn bitmap_problem(data: Seq<u8>, pos: int, count: nat) -> Option<ErrorView> {
    if bitmap_size(count) > usize::MAX {
        Some(ErrorView::Format("FST bitmap size exceeds address space"@))
    } else {
        first_of(
            missing_bytes(data, pos, bitmap_size(count) as int),
            if !padding_clear(bitmap_at(data, pos, count), count) {
                Some(ErrorView::Format("nonzero bitmap padding"@))
            } else if count > usize::MAX {
                Some(ErrorView::Format("FST bitmap bit count exceeds address space"@))
            } else {
                None
            },
        )
    }
}

/// What is wrong with an array of labels.
pub open spec fn words_problem(data: Seq<u8>, pos: int, count: nat) -> Option<ErrorView> {
    if 2 * count > usize::MAX {
        Some(
            ErrorView::Format("FST label array size overflows at byte "@ + dec(pos as nat)),
        )
    } else {
        missing_bytes(data, pos, 2 * count as int)
    }
}

/// What is wrong with the parts behind the header.
pub open spec fn layout_problem(data: Seq<u8>) -> Option<ErrorView> {
    let n = state_count(data);
    let m = future_count(data);
    first_of(
        bitmap_problem(data, 120, 2 * n + 1),
        first_of(
            bitmap_problem(data, future_bits_at(data), m + n + 1),
            first_of(
                bitmap_problem(data, final_bits_at(data), n),
                first_of(
                    words_problem(data, context_words_at(data), n + 1),
                    first_of(
                        words_problem(data, future_words_at(data), m),
                        first_of(
                            missing_bytes(data, backoffs_at(data), n as int + 1),
                            first_of(
                                missing_bytes(
                                    data,
                                    final_weights_at(data),
                                    final_count(data) as int,
                                ),
                                first_of(
                                    missing_bytes(data, future_weights_at(data), m as int + 1),
                                    tail_problem(data),
                                ),
                            ),
                        ),
                    ),
                ),
            ),
        ),
    )
}

/// What is wrong behind the storage.
pub open spec fn tail_problem(data: Seq<u8>) -> Option<ErrorView> {
    if storage_end(data) - 96 != num(data, 83, 8) {
        Some(ErrorView::Format("embedded storage size mismatch"@))
    } else {
        first_of(
            missing_bytes(data, storage_end(data), label_bits_at(data) - storage_end(data)),
            first_of(
                bitmap_problem(data, label_bits_at(data), label_count(data)),
                first_of(
                    missing_bytes(data, missing_weights_at(data), missing_count(data) as int),
                    if data.len() != file_end(data) {
                        Some(
                            ErrorView::Format(
                                "unexpected trailing bytes at byte "@ + dec(
                                    file_end(data) as nat,
                                ),
                            ),
                        )
                    } else {
                        None
                    },
                ),
            ),
        )
    }
}

/// What is wrong with a range of labels from an item on: nothing, or whether an item is
/// out of order.
pub open spec fn range_fault(words: Seq<u32>, lo: int, hi: int, limit: int, i: int) -> Option<bool>
    decreases hi - i,
{
    if i >= hi {
        None
    } else if words[i] >= limit {
        Some(false)
    } else if i > lo && words[i - 1] >= words[i] {
        Some(true)
    } else {
        range_fault(words, lo, hi, limit, i + 1)
    }
}

/// What is wrong with the ranges of labels from a state on.
pub open spec fn ranges_fault(
    words: Seq<u32>,
    starts: Seq<u32>,
    n: int,
    limit: int,
    s: int,
) -> Option<bool>
    decreases n - s,
{
    if s >= n {
        None
    } else {
        let fault = range_fault(
            words,
            starts[s] as int,
            starts[s + 1] as int,
            limit,
            starts[s] as int,
        );
        if fault is Some {
            fault
        } else {
            ranges_fault(words, starts, n, limit, s + 1)
        }
    }
}

/// What is said of a fault among labels.
pub open spec fn label_fault(fault: Option<bool>) -> Option<ErrorView> {
    match fault {
        None => None,
        Some(unsorted) => Some(
            if unsorted {
                ErrorView::Format("arc/context labels are not strictly sorted"@)
            } else {
                ErrorView::Format("compact label out of range"@)
            },
        ),
    }
}

/// What is wrong with the labels of contents.
pub open spec fn labels_problem(v: FstView) -> Option<ErrorView> {
    let limit = v.external.len() as int;
    if v.trie.words[0] != 65535 || v.trie.words[1] != 0 {
        Some(ErrorView::Format("invalid root/BOS context labels"@))
    } else {
        first_of(
            label_fault(ranges_fault(v.trie.words, v.trie.child_starts, v.n(), limit, 0)),
            first_of(
                label_fault(ranges_fault(v.future_words, v.future_starts, v.n(), limit, 0)),
                if exists|i: int| 0 <= i < v.future_words.len() && #[trigger] v.future_words[i]
                    == 0 {
                    Some(ErrorView::Format("unexpected explicit epsilon future"@))
                } else {
                    None
                },
            ),
        )
    }
}

/// What is wrong with the bitmaps and the labels.
pub open spec fn structure_problem(data: Seq<u8>) -> Option<ErrorView> {
    let n = state_count(data);
    let m = future_count(data);
    if !is_tree(context_bits(data), n) {
        Some(
            if tree_fault(context_bits(data), n, 0) == Some(true) {
                ErrorView::Format("cyclic or disconnected context trie"@)
            } else {
                ErrorView::Format("invalid context LOUDS bitmap"@)
            },
        )
    } else if !is_ranges(future_bits(data), n, m) {
        Some(
            if items_left(future_bits(data), n, m) {
                ErrorView::Format("future count mismatch"@)
            } else {
                ErrorView::Format("invalid future LOUDS bitmap"@)
            },
        )
    } else if places_of(final_bits(data), true).len() != final_count(data) {
        Some(ErrorView::Format("final count mismatch"@))
    } else if !label_bits(data)[0] || places_of(label_bits(data), false).len() + 1
        != missing_count(data) {
        Some(ErrorView::Format("label bitmap count mismatch"@))
    } else {
        labels_problem(contents(data))
    }
}

/// What is wrong first with a file.
pub open spec fn file_problem(data: Seq<u8>) -> Option<ErrorView> {
    first_of(
        preamble_problem(data),
        first_of(
            counts_problem(data),
            first_of(layout_problem(data), structure_problem(data)),
        ),
    )
}

/// The first 120 bytes fix how long a valid file is: no proper prefix and no
/// extension of a valid file is valid.
pub proof fn lemma_length_fixed(data: Seq<u8>, other: Seq<u8>)
    requires
        valid(data),
        valid(other),
        data.is_prefix_of(other),
    ensures
        data == other,
{
    assert(forall|i: int| 0 <= i < data.len() ==> data[i] == other[i]);
    assert(data.subrange(54, 62) =~= other.subrange(54, 62));
    assert(data.subrange(104, 112) =~= other.subrange(104, 112));
    assert(data.subrange(112, 120) =~= other.subrange(112, 120));
    assert(data.subrange(70, 74) =~= other.subrange(70, 74));
    assert(data.subrange(74, 78) =~= other.subrange(74, 78));
    assert(data =~= other);
}


fn beyond_ascii(bytes: &[u8]) -> (r: Option<usize>)
    ensures
        match r {
            Some(i) => i < bytes@.len() && bytes@[i as int] >= 128,
            None => forall|i: int| 0 <= i < bytes@.len() ==> (#[trigger] bytes@[i]) < 128,
        },
{
    let mut i: usize = 0;
    while i < bytes.len()
        invariant
            i <= bytes@.len(),
            forall|k: int| 0 <= k < i ==> (#[trigger] bytes@[k]) < 128,
        decreases bytes@.len() - i,
    {
        if bytes[i] >= 128 {
            return Some(i);
        }
        i += 1;
    }
    None
}

fn is_padding_clear(bytes: &[u8], count: u64) -> (r: bool)
    requires
        count <= 8 * bytes@.len() <= u64::MAX,
    ensures
        r == padding_clear(bytes@, count as nat),
{
    let ghost all = bits_in(bytes@, 8 * bytes@.len());
    let end: u64 = 8 * (bytes.len() as u64);
    let mut bit: u64 = count;
    while bit < end
        invariant
            count <= bit <= end,
            end == 8 * bytes@.len(),
            all == bits_in(bytes@, 8 * bytes@.len()),
            forall|i: int| count <= i < bit ==> !(#[trigger] all[i]),
        decreases end - bit,
    {
        if get_bit(bytes, bit) {
            assert(all[bit as int]);
            return false;
        }
        bit += 1;
    }
    true
}

/// A checked, sequential reader.
struct Reader<'a> {
    data: &'a [u8],
    offset: usize,
}

impl<'a> Reader<'a> {
    spec fn wf(&self) -> bool {
        self.offset <= self.data@.len()
    }

    fn take(&mut self, count: usize) -> (r: Result<&'a [u8], Error>)
        requires
            old(self).wf(),
        ensures
            final(self).wf(),
            final(self).data == old(self).data,
            match r {
                Ok(b) => {
                    &&& old(self).offset + count <= old(self).data@.len()
                    &&& b@ == old(self).data@.subrange(
                        old(self).offset as int,
                        old(self).offset + count,
                    )
                    &&& final(self).offset == old(self).offset + count
                },
                Err(e) => old(self).offset + count > old(self).data@.len() && Some(e@)
                    == missing_bytes(old(self).data@, old(self).offset as int, count as int),
            },
    {
        let total: usize = self.data.len();
        match self.offset.checked_add(count) {
            None => {
                let mut text: String = String::from_str("FST byte range overflows at byte ");
                push_dec(&mut text, self.offset as u64);
                Err(Error::Format(text))
            },
            Some(end) => if end > total {
                Err(
                    Error::Format(
                        text_with2(
                            "truncated FST at byte ",
                            self.offset as u64,
                            " (need ",
                            count as u64,
                            " bytes)",
                        ),
                    ),
                )
            } else {
                let bytes: &'a [u8] = vstd::slice::slice_subrange(self.data, self.offset, end);
                self.offset = end;
                Ok(bytes)
            },
        }
    }

    fn u32(&mut self) -> (r: Result<u32, Error>)
        requires
            old(self).wf(),
        ensures
            final(self).wf(),
            final(self).data == old(self).data,
            match r {
                Ok(x) => {
                    &&& old(self).offset + 4 <= old(self).data@.len()
                    &&& x == num(old(self).data@, old(self).offset as int, 4)
                    &&& final(self).offset == old(self).offset + 4
                },
                Err(e) => old(self).offset + 4 > old(self).data@.len() && Some(e@) == missing_bytes(
                    old(self).data@,
                    old(self).offset as int,
                    4,
                ),
            },
    {
        let b: &[u8] = self.take(4)?;
        Ok(read_u32(b))
    }

    fn u64(&mut self) -> (r: Result<u64, Error>)
        requires
            old(self).wf(),
        ensures
            final(self).wf(),
            final(self).data == old(self).data,
            match r {
                Ok(x) => {
                    &&& old(self).offset + 8 <= old(self).data@.len()
                    &&& x == num(old(self).data@, old(self).offset as int, 8)
                    &&& final(self).offset == old(self).offset + 8
                },
                Err(e) => old(self).offset + 8 > old(self).data@.len() && Some(e@) == missing_bytes(
                    old(self).data@,
                    old(self).offset as int,
                    8,
                ),
            },
    {
        let b: &[u8] = self.take(8)?;
        Ok(read_u64(b))
    }

    /// A string of ASCII characters behind its length.
    fn string(&mut self) -> (r: Result<&'a [u8], Error>)
        requires
            old(self).wf(),
        ensures
            final(self).wf(),
            final(self).data == old(self).data,
            ({
                let data = old(self).data@;
                let start = old(self).offset + 4;
                let size = num(data, old(self).offset as int, 4);
                match r {
                    Ok(b) => {
                        &&& start + size <= data.len()
                        &&& b@ == name_at(data, old(self).offset as int)
                        &&& final(self).offset == name_end(data, old(self).offset as int)
                        &&& name_problem(data, old(self).offset as int) is None
                    },
                    Err(e) => Some(e@) == name_problem(data, old(self).offset as int),
                }
            }),
    {
        let ghost data = self.data@;
        let ghost start = self.offset + 4;
        let size: u32 = self.u32()?;
        if size > 0x7fff_ffff {
            let mut text: String = String::from_str("invalid FST type string length ");
            push_dec_int(&mut text, to_signed32(size) as i64);
            return Err(Error::Format(text));
        }
        let bytes: &'a [u8] = self.take(size as usize)?;
        match beyond_ascii(bytes) {
            Some(i) => {
                assert(data[start + i] >= 128);
                Err(format_error("non-ASCII FST type"))
            },
            None => {
                assert forall|i: int| start <= i < start + size implies (#[trigger] data[i])
                    < 128 by {
                    assert(bytes@[i - start] < 128);
                }
                Ok(bytes)
            },
        }
    }

    /// Skips to a multiple of an alignment.
    fn align(&mut self, alignment: usize) -> (r: Result<(), Error>)
        requires
            old(self).wf(),
            alignment > 0,
        ensures
            final(self).wf(),
            final(self).data == old(self).data,
            ({
                let skip = (alignment - old(self).offset as int % alignment as int)
                    % alignment as int;
                match r {
                    Ok(_) => final(self).offset == old(self).offset + skip,
                    Err(e) => old(self).offset + skip > old(self).data@.len() && Some(e@)
                        == missing_bytes(old(self).data@, old(self).offset as int, skip),
                }
            }),
    {
        let skip: usize = (alignment - self.offset % alignment) % alignment;
        let _skipped: &[u8] = self.take(skip)?;
        Ok(())
    }

    /// An array of labels.
    fn words(&mut self, count: u64) -> (r: Result<&'a [u8], Error>)
        requires
            old(self).wf(),
            count <= 0x1_0000_0000,
        ensures
            final(self).wf(),
            final(self).data == old(self).data,
            ({
                let start = old(self).offset as int;
                let data = old(self).data@;
                match r {
                    Ok(b) => {
                        &&& start + 2 * count <= data.len()
                        &&& b@ == data.subrange(start, start + 2 * count)
                        &&& final(self).offset == start + 2 * count
                        &&& words_problem(data, start, count as nat) is None
                    },
                    Err(e) => start + 2 * count > data.len() && Some(e@) == words_problem(
                        data,
                        start,
                        count as nat,
                    ),
                }
            }),
    {
        let total: usize = self.data.len();
        if 2 * count > usize::MAX as u64 {
            let mut text: String = String::from_str("FST label array size overflows at byte ");
            push_dec(&mut text, self.offset as u64);
            return Err(Error::Format(text));
        }
        self.take((2 * count) as usize)
    }

    /// A bitmap, whose padding must be clear.
    fn bitmap(&mut self, count: u64) -> (r: Result<&'a [u8], Error>)
        requires
            old(self).wf(),
            count <= 0x2_0000_0000,
        ensures
            final(self).wf(),
            final(self).data == old(self).data,
            ({
                let size = bitmap_size(count as nat);
                let start = old(self).offset as int;
                let data = old(self).data@;
                match r {
                    Ok(b) => {
                        &&& start + size <= data.len()
                        &&& b@ == bitmap_at(data, start, count as nat)
                        &&& b@.len() == size
                        &&& padding_clear(b@, count as nat)
                        &&& final(self).offset == start + size
                        &&& count <= usize::MAX
                        &&& bitmap_problem(data, start, count as nat) is None
                    },
                    Err(e) => Some(e@) == bitmap_problem(data, start, count as nat),
                }
            }),
    {
        let size: u64 = (count + 63) / 64 * 8;
        if size > usize::MAX as u64 {
            return Err(format_error("FST bitmap size exceeds address space"));
        }
        let bytes: &'a [u8] = self.take(size as usize)?;
        if !is_padding_clear(bytes, count) {
            return Err(format_error("nonzero bitmap padding"));
        }
        if count > usize::MAX as u64 {
            return Err(format_error("FST bitmap bit count exceeds address space"));
        }
        Ok(bytes)
    }
}


/// The numbers in the fixed part of a file.
struct Header {
    n: u32,
    m: u32,
    f: u32,
    labels: u32,
    missing: u32,
    use_final: bool,
    quantum: F32,
    storage_size: u64,
    arcs: u64,
}

impl Header {
    spec fn of(&self, data: Seq<u8>) -> bool {
        &&& self.n == state_count(data)
        &&& self.m == future_count(data)
        &&& self.f == final_count(data)
        &&& self.labels == label_count(data)
        &&& self.missing == missing_count(data)
        &&& self.use_final == (data[78] != 0)
        &&& self.quantum == (F32 { bits: num(data, 79, 4) as u32 })
        &&& self.storage_size == num(data, 83, 8)
        &&& self.arcs == num(data, 62, 8)
    }
}

/// The type names are ASCII, and as long as they look.
proof fn lemma_type_names()
    ensures
        encode_utf8("compact_lm"@).len() == 10,
        forall|i: int| 0 <= i < 10 ==> (#[trigger] encode_utf8("compact_lm"@)[i]) < 128,
        encode_utf8("standard"@).len() == 8,
        forall|i: int| 0 <= i < 8 ==> (#[trigger] encode_utf8("standard"@)[i]) < 128,
{
    reveal_strlit("compact_lm");
    reveal_strlit("standard");
    vstd::utf8::is_ascii_chars_encode_utf8("compact_lm"@);
    vstd::utf8::is_ascii_chars_encode_utf8("standard"@);
    vstd::utf8::is_ascii_chars_nat_bound("compact_lm"@);
    vstd::utf8::is_ascii_chars_nat_bound("standard"@);
    assert forall|i: int| 0 <= i < 10 implies (#[trigger] encode_utf8("compact_lm"@)[i]) < 128 by {
        assert("compact_lm"@[i] as u8 == encode_utf8("compact_lm"@)[i]);
    }
    assert forall|i: int| 0 <= i < 8 implies (#[trigger] encode_utf8("standard"@)[i]) < 128 by {
        assert("standard"@[i] as u8 == encode_utf8("standard"@)[i]);
    }
}

fn unsupported_header(fst_type: &[u8], arc_type: &[u8], version: u32, flags: u32) -> (r: Error)
    ensures
        r@ == ErrorView::Format(
            "unsupported FST header: type "@ + dec_list(fst_type@.map_values(|x: u8| x as nat))
                + ", arcs "@ + dec_list(arc_type@.map_values(|x: u8| x as nat)) + ", version "@
                + dec(version as nat) + ", flags "@ + dec(flags as nat),
        ),
{
    let mut text: String = String::from_str("unsupported FST header: type ");
    push_bytes(&mut text, fst_type);
    text.append(", arcs ");
    push_bytes(&mut text, arc_type);
    text.append(", version ");
    push_dec(&mut text, version as u64);
    text.append(", flags ");
    push_dec(&mut text, flags as u64);
    Error::Format(text)
}

fn push_bytes(text: &mut String, bytes: &[u8])
    ensures
        final(text)@ == old(text)@ + crate::text::dec_list(bytes@.map_values(|x: u8| x as nat)),
{
    let mut wide: Vec<usize> = Vec::new();
    let mut i: usize = 0;
    while i < bytes.len()
        invariant
            i <= bytes@.len(),
            wide@.len() == i,
            forall|j: int| 0 <= j < i ==> wide@[j] == bytes@[j],
        decreases bytes@.len() - i,
    {
        wide.push(bytes[i] as usize);
        i += 1;
    }
    crate::text::push_dec_list(text, wide.as_slice());
    assert(wide@.map_values(|x: usize| x as nat) =~= bytes@.map_values(|x: u8| x as nat));
}

impl<'a> Reader<'a> {
    /// Reads what stands before the counts in the storage: up to its alignment.
    fn preamble(&mut self) -> (r: Result<(u64, u64), Error>)
        requires
            old(self).offset == 0,
        ensures
            final(self).wf(),
            final(self).data == old(self).data,
            ({
                let data = old(self).data@;
                match r {
                    Ok((states, arcs)) => {
                        &&& final(self).offset == 70
                        &&& data.len() >= 70
                        &&& num(data, 0, 4) == 0x7eb2_fdd6
                        &&& num(data, 4, 4) == 10
                        &&& data.subrange(8, 18) == encode_utf8("compact_lm"@)
                        &&& num(data, 18, 4) == 8
                        &&& data.subrange(22, 30) == encode_utf8("standard"@)
                        &&& num(data, 30, 4) == 2
                        &&& num(data, 34, 4) == 4
                        &&& num(data, 46, 8) == 1
                        &&& 1 < states < 0x1_0000_0000
                        &&& states == state_count(data)
                        &&& arcs == num(data, 62, 8)
                        &&& preamble_problem(data) is None
                    },
                    Err(e) => Some(e@) == preamble_problem(data) && !header_valid(data),
                }
            }),
    {
        let ghost data = self.data@;
        proof {
            lemma_type_names();
        }
        if self.u32()? != 0x7eb2_fdd6 {
            return Err(format_error("not an OpenFst binary (bad magic)"));
        }
        let fst_type: &'a [u8] = match self.string() {
            Ok(b) => b,
            Err(e) => {
                proof {
                    if header_valid(data) {
                        let name = data.subrange(8, 18);
                        assert forall|i: int| 8 <= i < 18 implies #[trigger] data[i] < 128 by {
                            assert(data[i] == name[i - 8]);
                        }
                    }
                }
                return Err(e);
            },
        };
        let arc_type: &'a [u8] = match self.string() {
            Ok(b) => b,
            Err(e) => {
                proof {
                    if header_valid(data) {
                        let name = data.subrange(22, 30);
                        assert forall|i: int| 22 <= i < 30 implies #[trigger] data[i] < 128 by {
                            assert(data[i] == name[i - 22]);
                        }
                    }
                }
                return Err(e);
            },
        };
        let version: u32 = self.u32()?;
        let flags: u32 = self.u32()?;
        let _properties: u64 = self.u64()?;
        let start: u64 = self.u64()?;
        let num_states: u64 = self.u64()?;
        let header_arcs: u64 = self.u64()?;
        if !same_bytes(fst_type, "compact_lm".as_bytes()) || !same_bytes(
            arc_type,
            "standard".as_bytes(),
        ) || version != 2 || flags != 4 {
            return Err(unsupported_header(fst_type, arc_type, version, flags));
        }
        if num_states <= 1 || num_states >= 0x1_0000_0000 || start != 1 {
            let mut text: String = text_with("invalid compact LM states/start: ", num_states, "/");
            push_dec(&mut text, start);
            return Err(Error::Format(text));
        }
        Ok((num_states, header_arcs))
    }

    /// Reads the fixed part of a file.
    fn header(&mut self) -> (r: Result<Header, Error>)
        requires
            old(self).offset == 0,
        ensures
            final(self).wf(),
            final(self).data == old(self).data,
            match r {
                Ok(h) => {
                    &&& header_valid(old(self).data@)
                    &&& h.of(old(self).data@)
                    &&& final(self).offset == 120
                    &&& preamble_problem(old(self).data@) is None
                    &&& counts_problem(old(self).data@) is None
                },
                Err(e) => !header_valid(old(self).data@) && Some(e@) == first_of(
                    preamble_problem(old(self).data@),
                    counts_problem(old(self).data@),
                ),
            },
    {
        let ghost data = self.data@;
        let (num_states, header_arcs) = self.preamble()?;
        let num_labels: u32 = self.u32()?;
        let missing: u32 = self.u32()?;
        let use_final: u8 = self.take(1)?[0];
        let quantum: F32 = F32 { bits: self.u32()? };
        let storage_size: u64 = self.u64()?;
        if use_final > 1 {
            let mut text: String = String::from_str("invalid use-final flag ");
            push_dec(&mut text, use_final as u64);
            return Err(Error::Format(text));
        }
        if num_labels == 0 || num_labels > 65536 || missing > num_labels {
            return Err(
                Error::Format(
                    text_with2(
                        "invalid label counts: ",
                        num_labels as u64,
                        " labels, ",
                        missing as u64,
                        " fallback weights",
                    ),
                ),
            );
        }
        if !quantum.is_finite() || !quantum.is_positive() {
            let mut text: String = String::from_str("invalid weight quantum ");
            quantum.push_text(&mut text);
            return Err(Error::Format(text));
        }
        self.align(16)?;
        let n: u64 = self.u64()?;
        let m: u64 = self.u64()?;
        let f: u64 = self.u64()?;
        if n != num_states || m >= 0x1_0000_0000 || f > n || m + n + 1 >= 0x1_0000_0000 || m + n - 1
            + (missing as u64) != header_arcs {
            return Err(format_error("header and embedded state/arc counts disagree"));
        }
        Ok(
            Header {
                n: n as u32,
                m: m as u32,
                f: f as u32,
                labels: num_labels,
                missing,
                use_final: use_final != 0,
                quantum,
                storage_size,
                arcs: header_arcs,
            },
        )
    }
}


/// The parts of a file behind its header.
struct Parts<'a> {
    context: &'a [u8],
    future: &'a [u8],
    finals: &'a [u8],
    labels: &'a [u8],
    context_words: Words<'a>,
    future_words: Words<'a>,
    backoffs: &'a [u8],
    final_weights: &'a [u8],
    future_weights: &'a [u8],
    missing_weights: &'a [u8],
}

impl<'a> Parts<'a> {
    spec fn of(&self, data: Seq<u8>) -> bool {
        let n = state_count(data);
        let m = future_count(data);
        &&& self.context@ == bitmap_at(data, 120, 2 * n + 1)
        &&& self.future@ == bitmap_at(data, future_bits_at(data), m + n + 1)
        &&& self.finals@ == bitmap_at(data, final_bits_at(data), n)
        &&& self.labels@ == bitmap_at(data, label_bits_at(data), label_count(data))
        &&& self.context_words.0@ == data.subrange(context_words_at(data), future_words_at(data))
        &&& self.future_words.0@ == data.subrange(future_words_at(data), backoffs_at(data))
        &&& self.backoffs@ == data.subrange(backoffs_at(data), final_weights_at(data))
        &&& self.final_weights@ == data.subrange(final_weights_at(data), future_weights_at(data))
        &&& self.future_weights@ == data.subrange(future_weights_at(data), storage_end(data))
        &&& self.missing_weights@ == data.subrange(missing_weights_at(data), file_end(data))
    }
}

impl<'a> Reader<'a> {
    /// Reads the parts behind the header, all of them before any is followed.
    fn parts(&mut self, h: &Header) -> (r: Result<Parts<'a>, Error>)
        requires
            old(self).wf(),
            old(self).offset == 120,
            header_valid(old(self).data@),
            h.of(old(self).data@),
        ensures
            match r {
                Ok(p) => {
                    &&& layout_valid(old(self).data@)
                    &&& p.of(old(self).data@)
                    &&& layout_problem(old(self).data@) is None
                },
                Err(e) => !layout_valid(old(self).data@) && Some(e@) == layout_problem(
                    old(self).data@,
                ),
            },
    {
        let ghost data = self.data@;
        let n: u64 = h.n as u64;
        let m: u64 = h.m as u64;
        let total: usize = self.data.len();
        let context: &'a [u8] = self.bitmap(2 * n + 1)?;
        let future: &'a [u8] = self.bitmap(m + n + 1)?;
        let finals: &'a [u8] = self.bitmap(n)?;
        let context_words: &'a [u8] = self.words(n + 1)?;
        let future_words: &'a [u8] = self.words(m)?;
        let backoffs: &'a [u8] = self.take((n + 1) as usize)?;
        let final_weights: &'a [u8] = self.take(h.f as usize)?;
        let future_weights: &'a [u8] = self.take((m + 1) as usize)?;
        if (self.offset - 96) as u64 != h.storage_size {
            return Err(format_error("embedded storage size mismatch"));
        }
        self.align(8)?;
        let labels: &'a [u8] = self.bitmap(h.labels as u64)?;
        let missing_weights: &'a [u8] = self.take(h.missing as usize)?;
        if self.offset != total {
            let mut text: String = String::from_str("unexpected trailing bytes at byte ");
            push_dec(&mut text, self.offset as u64);
            return Err(Error::Format(text));
        }
        Ok(
            Parts {
                context,
                future,
                finals,
                labels,
                context_words: Words(context_words),
                future_words: Words(future_words),
                backoffs,
                final_weights,
                future_weights,
                missing_weights,
            },
        )
    }
}

/// Checks that the labels of a range are in use and ascend.
fn check_range(words: Words<'_>, lo: usize, hi: usize, limit: usize) -> (r: Option<bool>)
    requires
        lo <= hi <= words@.len(),
    ensures
        r is None <==> range_valid(words@, lo as int, hi as int, limit as int),
        r == range_fault(words@, lo as int, hi as int, limit as int, lo as int),
{
    let mut i: usize = lo;
    while i < hi
        invariant
            lo <= i <= hi <= words@.len(),
            range_fault(words@, lo as int, hi as int, limit as int, lo as int) == range_fault(
                words@,
                lo as int,
                hi as int,
                limit as int,
                i as int,
            ),
            range_valid(words@, lo as int, i as int, limit as int),
        decreases hi - i,
    {
        let label: u32 = words.get(i);
        if label as usize >= limit {
            assert(words@[i as int] >= limit);
            return Some(false);
        }
        if i > lo && words.get(i - 1) >= label {
            assert(words@[i - 1] >= words@[i as int]);
            return Some(true);
        }
        proof {
            assert forall|a: int, b: int| lo <= a < b < i + 1 implies words@[a] < words@[b] by {
                if b == i && a < i - 1 {
                    assert(words@[a] < words@[i - 1]);
                }
            }
        }
        i += 1;
    }
    None
}

/// Checks that the labels of every state's range are in use and ascend.
fn check_ranges(words: Words<'_>, starts: &Vec<u32>, n: usize, limit: usize) -> (r: Option<bool>)
    requires
        starts@.len() == n + 1,
        forall|s: int, t: int|
            0 <= s <= t <= n ==> #[trigger] starts@[s] <= #[trigger] starts@[t],
        starts@[n as int] <= words@.len(),
    ensures
        r is None <==> ranges_valid(words@, starts@, n as int, limit as int),
        r == ranges_fault(words@, starts@, n as int, limit as int, 0),
{
    let mut s: usize = 0;
    while s < n
        invariant
            s <= n,
            ranges_fault(words@, starts@, n as int, limit as int, 0) == ranges_fault(
                words@,
                starts@,
                n as int,
                limit as int,
                s as int,
            ),
            starts@.len() == n + 1,
            forall|s: int, t: int|
                0 <= s <= t <= n ==> #[trigger] starts@[s] <= #[trigger] starts@[t],
            starts@[n as int] <= words@.len(),
            forall|k: int|
                0 <= k < s ==> range_valid(
                    words@,
                    #[trigger] starts@[k] as int,
                    starts@[k + 1] as int,
                    limit as int,
                ),
        decreases n - s,
    {
        let lo: usize = starts[s] as usize;
        let hi: usize = starts[s + 1] as usize;
        let fault: Option<bool> = check_range(words, lo, hi, limit);
        if fault.is_some() {
            assert(!range_valid(
                words@,
                starts@[s as int] as int,
                starts@[s + 1] as int,
                limit as int,
            ));
            return fault;
        }
        s += 1;
    }
    None
}

/// The error of a fault among labels.
fn label_error(unsorted: bool) -> (r: Error)
    ensures
        Some(r@) == label_fault(Some(unsorted)),
{
    if unsorted {
        format_error("arc/context labels are not strictly sorted")
    } else {
        format_error("compact label out of range")
    }
}

/// Checks that no future has the compact label zero.
fn no_epsilon(words: Words<'_>, m: usize) -> (r: bool)
    requires
        m == words@.len(),
    ensures
        r == forall|i: int| 0 <= i < words@.len() ==> (#[trigger] words@[i]) != 0,
{
    let mut i: usize = 0;
    while i < m
        invariant
            i <= m,
            m == words@.len(),
            forall|j: int| 0 <= j < i ==> (#[trigger] words@[j]) != 0,
        decreases m - i,
    {
        if words.get(i) == 0 {
            assert(words@[i as int] == 0);
            return false;
        }
        i += 1;
    }
    true
}

/// Finds a number in an ascending sequence by bisection.
fn position_of(items: &Vec<u32>, x: u32) -> (r: Option<usize>)
    requires
        ascending(items@, 0, items@.len() as int),
    ensures
        match r {
            Some(i) => i < items@.len() && items@[i as int] == x && items@.contains(x)
                && items@.index_of(x) == i,
            None => !items@.contains(x),
        },
{
    let mut lo: usize = 0;
    let mut hi: usize = items.len();
    while lo < hi
        invariant
            lo <= hi <= items@.len(),
            ascending(items@, 0, items@.len() as int),
            forall|i: int| 0 <= i < lo ==> items@[i] < x,
            forall|i: int| hi <= i < items@.len() ==> items@[i] >= x,
        decreases hi - lo,
    {
        let mid: usize = lo + (hi - lo) / 2;
        if items[mid] < x {
            lo = mid + 1;
        } else {
            hi = mid;
        }
    }
    if lo < items.len() && items[lo] == x {
        proof {
            assert(items@.contains(x));
            let k = items@.index_of(x);
            assert(items@[k] == x);
            if k < lo {
                assert(items@[k] < items@[lo as int]);
            }
            if k > lo {
                assert(items@[lo as int] < items@[k]);
            }
        }
        Some(lo)
    } else {
        proof {
            if items@.contains(x) {
                let k = items@.index_of(x);
                assert(items@[k] == x);
                if k > lo {
                    assert(items@[lo as int] < items@[k]);
                }
            }
        }
        None
    }
}

/// The place of each label among those in use, or the largest number where it is
/// not in use.
fn index_labels(labels: &[u8], count: u32) -> (r: (Vec<u32>, Vec<u32>, Vec<u32>))
    requires
        count <= 8 * labels@.len(),
        count <= 65536,
    ensures
        ({
            let bits = bits_in(labels@, count as nat);
            let (external, internal, missing) = r;
            &&& external@ == places_of(bits, true)
            &&& missing@ == places_of(bits, false)
            &&& external@.len() + missing@.len() == count
            &&& indexed(external@, missing@, internal@, count as int)
        }),
{
    let ghost bits = bits_in(labels@, count as nat);
    let external: Vec<u32> = scan_places(labels, count, true);
    let missing: Vec<u32> = scan_places(labels, count, false);
    let mut internal: Vec<u32> = Vec::new();
    proof {
        lemma_places(bits, true);
        lemma_places(bits, false);
    }
    let mut label: u32 = 0;
    let mut next: usize = 0;
    while label < count
        invariant
            label <= count <= 65536,
            bits.len() == count,
            external@.len() + missing@.len() == count,
            external@ == places_of(bits, true),
            missing@ == places_of(bits, false),
            ascending(external@, 0, external@.len() as int),
            forall|i: int|
                0 <= i < external@.len() ==> (#[trigger] external@[i]) < count
                    && bits[external@[i] as int],
            forall|i: int|
                0 <= i < missing@.len() ==> (#[trigger] missing@[i]) < count
                    && !bits[missing@[i] as int],
            forall|k: int|
                0 <= k < bits.len() && #[trigger] bits[k] ==> external@.contains(k as u32),
            forall|k: int|
                0 <= k < bits.len() && !(#[trigger] bits[k]) ==> missing@.contains(k as u32),
            next <= external@.len(),
            forall|i: int| 0 <= i < next ==> external@[i] < label,
            forall|i: int| next <= i < external@.len() ==> external@[i] >= label,
            internal@.len() == label,
            forall|l: u32|
                l < label ==> (if missing@.contains(l) {
                    #[trigger] internal@[l as int] == u32::MAX
                } else {
                    internal@[l as int] < external@.len() && external@[internal@[l as int] as int]
                        == l
                }),
        decreases count - label,
    {
        if next < external.len() && external[next] == label {
            proof {
                assert(bits[external@[next as int] as int]);
                if missing@.contains(label) {
                    let k = missing@.index_of(label);
                    assert(missing@[k] == label);
                }
            }
            internal.push(next as u32);
            next += 1;
        } else {
            proof {
                if bits[label as int] {
                    assert(external@.contains(label));
                    let k = external@.index_of(label);
                    assert(external@[k] == label);
                    if k > next {
                        assert(external@[next as int] < external@[k]);
                    }
                }
                assert(missing@.contains(label));
            }
            internal.push(u32::MAX);
        }
        label += 1;
    }
    (external, internal, missing)
}

/// That `internal` tells for each label where it stands in `external`.
pub open spec fn indexed(
    external: Seq<u32>,
    missing: Seq<u32>,
    internal: Seq<u32>,
    n: int,
) -> bool {
    &&& internal.len() == n
    &&& forall|l: u32|
        l < n ==> (if missing.contains(l) {
            #[trigger] internal[l as int] == u32::MAX
        } else {
            internal[l as int] < external.len() && external[internal[l as int] as int] == l
        })
}


/// Lazy arc access to an acceptor.
///
/// `arcs` exposes the literal epsilon backoff arcs. For scoring use
/// [`BackoffLm`], where backoff is a *failure* transition taken only when the
/// requested label is genuinely absent.
#[derive(Debug)]
pub struct CompactFst<'a> {
    num_arcs: u64,
    num_labels: u32,
    quantum: F32,
    use_final_weights: bool,
    trie: Trie<'a>,
    future_starts: Vec<u32>,
    final_states: Vec<u32>,
    future_words: Words<'a>,
    backoffs: &'a [u8],
    final_weights: &'a [u8],
    future_weights: &'a [u8],
    missing_weights: &'a [u8],
    external: Vec<u32>,
    internal: Vec<u32>,
    missing_labels: Vec<u32>,
    weights: Vec<F64>,
}

impl<'a> View for CompactFst<'a> {
    type V = FstView;

    closed spec fn view(&self) -> FstView {
        FstView {
            num_arcs: self.num_arcs,
            num_labels: self.num_labels,
            quantum: self.quantum,
            use_final_weights: self.use_final_weights,
            trie: self.trie@,
            future_starts: self.future_starts@,
            future_words: self.future_words@,
            final_states: self.final_states@,
            backoffs: self.backoffs@,
            final_weights: self.final_weights@,
            future_weights: self.future_weights@,
            missing_weights: self.missing_weights@,
            external: self.external@,
            missing_labels: self.missing_labels@,
        }
    }
}

/// The contents of a valid file have the shapes and orders of an acceptor.
pub proof fn lemma_contents_wf(data: Seq<u8>)
    requires
        valid(data),
        links_agree(
            parents_of(context_bits(data)),
            starts_of(context_bits(data)),
            state_count(data) as int,
        ),
        forall|k: int, l: int|
            0 <= k <= l <= state_count(data) ==> #[trigger] starts_of(future_bits(data))[k]
                <= #[trigger] starts_of(future_bits(data))[l],
        starts_of(future_bits(data))[0] == 0,
    ensures
        contents(data).wf(),
{
    reveal(FstView::wf);
    let v = contents(data);
    let n = state_count(data) as int;
    lemma_places(final_bits(data), true);
    lemma_places(label_bits(data), true);
    lemma_places(label_bits(data), false);
    assert(v.trie.words.len() == n + 1);
    assert(v.future_words.len() == future_count(data));
    assert forall|s: int| 0 <= s < n implies ascending(
        v.trie.words,
        #[trigger] v.trie.child_starts[s] as int,
        v.trie.child_starts[s + 1] as int,
    ) by {
        assert(range_valid(
            v.trie.words,
            v.trie.child_starts[s] as int,
            v.trie.child_starts[s + 1] as int,
            v.external.len() as int,
        ));
    }
    assert forall|s: int| 0 <= s < n implies ascending(
        v.future_words,
        #[trigger] v.future_starts[s] as int,
        v.future_starts[s + 1] as int,
    ) by {
        assert(range_valid(
            v.future_words,
            v.future_starts[s] as int,
            v.future_starts[s + 1] as int,
            v.external.len() as int,
        ));
    }
    assert forall|i: int| 0 <= i < v.future_words.len() implies 0 < #[trigger] v.future_words[i]
        < v.external.len() by {
        let s = lemma_owner(v.future_starts, n, i);
        assert(range_valid(
            v.future_words,
            v.future_starts[s] as int,
            v.future_starts[s + 1] as int,
            v.external.len() as int,
        ));
    }
    assert(label_bits(data)[0]);
    assert(v.external.contains(0u32));
    let k = v.external.index_of(0u32);
    assert(v.external[k] == 0);
    if k > 0 {
        assert(v.external[0] < v.external[k]);
    }
    assert forall|l: u32| l < v.num_labels implies v.external.contains(l)
        != #[trigger] v.missing_labels.contains(l) by {
        if label_bits(data)[l as int] {
            assert(v.external.contains(l));
            if v.missing_labels.contains(l) {
                let i = v.missing_labels.index_of(l);
                assert(v.missing_labels[i] == l);
            }
        } else {
            assert(v.missing_labels.contains(l));
            if v.external.contains(l) {
                let i = v.external.index_of(l);
                assert(v.external[i] == l);
            }
        }
    }
}

/// Every item of ranges belongs to one of them.
proof fn lemma_owner(starts: Seq<u32>, n: int, i: int) -> (s: int)
    requires
        1 <= n,
        starts.len() >= n + 1,
        starts[0] == 0,
        0 <= i < starts[n],
    ensures
        0 <= s < n,
        starts[s] <= i < starts[s + 1],
    decreases n,
{
    if starts[n - 1] <= i {
        n - 1
    } else {
        lemma_owner(starts, n - 1, i)
    }
}

/// What every quantized weight stands for.
fn dequantize_weights(quantum: F32) -> (r: Vec<F64>)
    ensures
        r@.len() == 256,
        forall|v: FstView, code: u8| #![trigger v.weight(code)]
            v.quantum == quantum ==> r@[code as int] == v.weight(code),
{
    let mut weights: Vec<F64> = Vec::new();
    let mut code: usize = 0;
    while code < 256
        invariant
            code <= 256,
            weights@.len() == code,
            forall|c: u8| c < code ==> #[trigger] weights@[c as int] == if c == QUANTIZED_INFINITY {
                infinity()
            } else {
                F32::of_int(c as int).product(quantum).widened()
            },
        decreases 256 - code,
    {
        if code == QUANTIZED_INFINITY as usize {
            weights.push(F64 { bits: TOP64 });
        } else {
            weights.push(F32::from_int(code as i64).times(quantum).widen());
        }
        code += 1;
    }
    weights
}

impl<'a> CompactFst<'a> {
    #[verifier::type_invariant]
    spec fn inv(&self) -> bool {
        &&& self@.wf()
        &&& indexed(
            self.external@,
            self.missing_labels@,
            self.internal@,
            self.num_labels as int,
        )
        &&& self.weights@.len() == 256
        &&& forall|code: u8| #[trigger] self@.weight(code) == self.weights@[code as int]
    }

    pub fn parse(data: &'a [u8]) -> (r: Result<Self, Error>)
        ensures
            match r {
                Ok(fst) => fst_in(data@) == Some(fst@) && fst@.wf(),
                Err(e) => fst_in(data@) is None && Some(e@) == file_problem(data@),
            },
    {
        let mut reader: Reader<'a> = Reader { data, offset: 0 };
        let h: Header = reader.header()?;
        let p: Parts<'a> = reader.parts(&h)?;
        let (parents, child_starts) = match scan_tree(p.context, h.n) {
            Err(early) => {
                return Err(
                    if early {
                        format_error("cyclic or disconnected context trie")
                    } else {
                        format_error("invalid context LOUDS bitmap")
                    },
                );
            },
            Ok(x) => x,
        };
        let future_starts: Vec<u32> = match scan_ranges(p.future, h.n, h.m) {
            Err(left) => {
                return Err(
                    if left {
                        format_error("future count mismatch")
                    } else {
                        format_error("invalid future LOUDS bitmap")
                    },
                );
            },
            Ok(x) => x,
        };
        let final_states: Vec<u32> = scan_places(p.finals, h.n, true);
        if final_states.len() != h.f as usize {
            return Err(format_error("final count mismatch"));
        }
        let (external, internal, missing_labels) = index_labels(p.labels, h.labels);
        if !get_bit(p.labels, 0) || missing_labels.len() + 1 != h.missing as usize {
            return Err(format_error("label bitmap count mismatch"));
        }
        let ghost v = contents(data@);
        proof {
            assert(v.trie.words.len() == h.n + 1);
            assert(v.future_words.len() == h.m);
        }
        if p.context_words.get(0) != 65535 || p.context_words.get(1) != 0 {
            return Err(format_error("invalid root/BOS context labels"));
        }
        if let Some(unsorted) = check_ranges(
            p.context_words,
            &child_starts,
            h.n as usize,
            external.len(),
        ) {
            return Err(label_error(unsorted));
        }
        if let Some(unsorted) = check_ranges(
            p.future_words,
            &future_starts,
            h.n as usize,
            external.len(),
        ) {
            return Err(label_error(unsorted));
        }
        if !no_epsilon(p.future_words, h.m as usize) {
            return Err(format_error("unexpected explicit epsilon future"));
        }
        proof {
            lemma_contents_wf(data@);
        }
        let weights: Vec<F64> = dequantize_weights(h.quantum);
        Ok(
            CompactFst {
                num_arcs: h.arcs - 1,
                num_labels: h.labels,
                quantum: h.quantum,
                use_final_weights: h.use_final,
                trie: Trie { words: p.context_words, parents, child_starts },
                future_starts,
                final_states,
                future_words: p.future_words,
                backoffs: p.backoffs,
                final_weights: p.final_weights,
                future_weights: p.future_weights,
                missing_weights: p.missing_weights,
                external,
                internal,
                missing_labels,
                weights,
            },
        )
    }

    pub fn start(&self) -> (r: u32)
        ensures
            r == 1,
    {
        1
    }

    pub fn num_states(&self) -> (r: u32)
        ensures
            r == self@.n(),
    {
        proof {
            use_type_invariant(self);
            reveal(FstView::wf);
        }
        self.trie.parents.len() as u32
    }

    /// Actual arcs, excluding the unused fallback sentinel counted by the writer.
    pub fn num_arcs(&self) -> (r: u64)
        ensures
            r == self@.num_arcs,
    {
        self.num_arcs
    }

    pub fn num_labels(&self) -> (r: u32)
        ensures
            r == self@.num_labels,
    {
        self.num_labels
    }

    pub fn num_futures(&self) -> (r: u32)
        ensures
            r == self@.future_words.len(),
    {
        proof {
            use_type_invariant(self);
            reveal(FstView::wf);
        }
        self.future_starts[self.trie.parents.len()]
    }

    pub fn num_finals(&self) -> (r: u32)
        ensures
            r == self@.final_states.len(),
    {
        proof {
            use_type_invariant(self);
            reveal(FstView::wf);
            lemma_ascending_length(self.final_states@, self@.n());
        }
        self.final_states.len() as u32
    }

    pub fn quantum(&self) -> (r: F32)
        ensures
            r == self@.quantum,
    {
        self.quantum
    }

    pub fn use_final_weights(&self) -> (r: bool)
        ensures
            r == self@.use_final_weights,
    {
        self.use_final_weights
    }

    fn weight(&self, code: u8) -> (r: F64)
        ensures
            r == self@.weight(code),
    {
        proof {
            use_type_invariant(self);
        }
        self.weights[code as usize]
    }

    fn check_state(&self, state: u32) -> (r: Result<(), Error>)
        ensures
            match r {
                Ok(_) => state < self@.n(),
                Err(e) => state >= self@.n() && e@ == out_of_range(state as int),
            },
    {
        if state >= self.num_states() {
            let text: String = text_with("FST state out of range: ", state as u64, "");
            proof {
                reveal_strlit("");
                assert(text@ =~= "FST state out of range: "@ + crate::text::dec(state as nat));
            }
            return Err(Error::Invalid(text));
        }
        Ok(())
    }

    /// Literal final weight; infinity means nonfinal.
    pub fn final_weight(&self, state: u32) -> (r: Result<F64, Error>)
        ensures
            match r {
                Ok(w) => state < self@.n() && w == self@.literal_final(state as int),
                Err(e) => state >= self@.n() && e@ == out_of_range(state as int),
            },
    {
        self.check_state(state)?;
        Ok(self.literal_final(state))
    }

    fn literal_final(&self, state: u32) -> (r: F64)
        requires
            state < self@.n(),
        ensures
            r == self@.literal_final(state as int),
    {
        proof {
            use_type_invariant(self);
            reveal(FstView::wf);
        }
        if !self.use_final_weights {
            return F64 { bits: 0 };
        }
        match position_of(&self.final_states, state) {
            Some(i) => self.weight(self.final_weights[i]),
            None => F64 { bits: TOP64 },
        }
    }

    /// The compact label of a label in use.
    fn compact(&self, label: u32) -> (r: Option<u32>)
        requires
            label < self@.num_labels,
        ensures
            match r {
                Some(c) => !self@.missing_labels.contains(label) && c == self@.external.index_of(
                    label,
                ),
                None => self@.missing_labels.contains(label),
            },
    {
        proof {
            use_type_invariant(self);
            reveal(FstView::wf);
        }
        let compact: u32 = self.internal[label as usize];
        if compact == u32::MAX {
            assert(self@.missing_labels.contains(label));
            return None;
        }
        proof {
            assert(!self@.missing_labels.contains(label));
            assert(self@.external.contains(label));
            let k = self@.external.index_of(label);
            assert(self@.external[k] == label);
            if k < compact {
                assert(self@.external[k] < self@.external[compact as int]);
            }
            if k > compact {
                assert(self@.external[compact as int] < self@.external[k]);
            }
        }
        Some(compact)
    }

    /// Where a state has the future of a compact label.
    fn find_future(&self, state: u32, compact: u32) -> (r: Option<usize>)
        requires
            state < self@.n(),
        ensures
            ({
                let v = self@;
                let lo = v.future_starts[state as int] as int;
                let hi = v.future_starts[state + 1] as int;
                match r {
                    Some(i) => {
                        &&& stands_at(v.future_words, compact, lo, hi, i as int)
                        &&& i < v.future_weights.len()
                        &&& forall|j: int|
                            stands_at(v.future_words, compact, lo, hi, j) ==> j == i
                    },
                    None => forall|j: int| !stands_at(v.future_words, compact, lo, hi, j),
                }
            }),
    {
        proof {
            use_type_invariant(self);
            reveal(FstView::wf);
            assert(self@.future_starts[state as int] <= self@.future_starts[state + 1]);
            assert(self@.future_starts[state + 1] <= self@.future_starts[self@.n()]);
        }
        let lo: usize = self.future_starts[state as usize] as usize;
        let hi: usize = self.future_starts[state as usize + 1] as usize;
        let r: Option<usize> = self.future_words.find(compact, lo, hi);
        proof {
            if let Some(i) = r {
                assert forall|j: int|
                    stands_at(self@.future_words, compact, lo as int, hi as int, j) implies j
                    == i by {
                    if i < j {
                        assert(self@.future_words[i as int] < self@.future_words[j]);
                    }
                    if j < i {
                        assert(self@.future_words[j] < self@.future_words[i as int]);
                    }
                }
            }
        }
        r
    }

    /// The weight of a missing label.
    fn missing_weight(&self, label: u32) -> (r: F64)
        requires
            self@.missing_labels.contains(label),
        ensures
            r == self@.weight(self@.missing_weights[self@.missing_labels.index_of(label)]),
    {
        proof {
            use_type_invariant(self);
            reveal(FstView::wf);
        }
        match position_of(&self.missing_labels, label) {
            Some(i) => self.weight(self.missing_weights[i]),
            None => F64 { bits: TOP64 },
        }
    }

    /// The state behind a compact label.
    fn target(&self, state: u32, compact: u32) -> (r: u32)
        requires
            state < self@.n(),
        ensures
            r == self@.trie.target(state as int, compact),
    {
        proof {
            use_type_invariant(self);
            reveal(FstView::wf);
        }
        self.trie.transition_from_state(state, compact)
    }

    /// The backoff of a state other than the root: weight and state.
    fn backoff(&self, state: u32) -> (r: (F64, u32))
        requires
            0 < state < self@.n(),
        ensures
            r.0 == self@.weight(self@.backoffs[state as int]),
            r.1 == self@.trie.parents[state as int],
            r.1 < state,
    {
        proof {
            use_type_invariant(self);
            reveal(FstView::wf);
        }
        (self.weight(self.backoffs[state as usize]), self.trie.parents[state as usize])
    }

    fn direct(&self, state: u32, label: u32) -> (r: Option<(u32, F64)>)
        requires
            state < self@.n(),
        ensures
            r == self@.direct(state as int, label),
    {
        if label == 0 || label >= self.num_labels {
            return None;
        }
        match self.compact(label) {
            None => if state != 0 {
                None
            } else {
                Some((0, self.missing_weight(label)))
            },
            Some(compact) => {
                let found: Option<usize> = self.find_future(state, compact);
                proof {
                    let v = self@;
                    let lo = v.future_starts[state as int] as int;
                    let hi = v.future_starts[state + 1] as int;
                    assert(compact == v.external.index_of(label) as u32);
                    if let Some(i) = found {
                        assert(stands_at(v.future_words, compact, lo, hi, i as int));
                        let j = choose|j: int| stands_at(v.future_words, compact, lo, hi, j);
                        assert(stands_at(v.future_words, compact, lo, hi, j));
                        assert(j == i);
                    }
                }
                match found {
                    None => None,
                    Some(i) => Some(
                        (self.target(state, compact), self.weight(self.future_weights[i])),
                    ),
                }
            },
        }
    }

    fn future_arc(&self, state: u32, i: usize) -> (r: Arc)
        requires
            state < self@.n(),
            i < self@.future_words.len(),
        ensures
            r == self@.future_arc(state as int, i as int),
    {
        proof {
            use_type_invariant(self);
            reveal(FstView::wf);
        }
        let compact: u32 = self.future_words.get(i);
        let label: u32 = self.external[compact as usize];
        Arc {
            ilabel: label,
            olabel: label,
            weight: self.weight(self.future_weights[i]),
            nextstate: self.trie.transition_from_state(state, compact),
        }
    }

    fn missing_arc(&self, i: usize) -> (r: Arc)
        requires
            i < self@.missing_labels.len(),
        ensures
            r == self@.missing_arc(i as int),
    {
        proof {
            use_type_invariant(self);
            reveal(FstView::wf);
        }
        let label: u32 = self.missing_labels[i];
        Arc {
            ilabel: label,
            olabel: label,
            weight: self.weight(self.missing_weights[i]),
            nextstate: 0,
        }
    }

    /// Whether a missing label comes before the label of a future.
    fn missing_first(&self, state: u32, missing: usize, future: usize) -> (r: bool)
        requires
            missing < self@.missing_labels.len(),
            future < self@.future_words.len(),
        ensures
            r == (self@.missing_arc(missing as int).ilabel < self@.future_arc(
                state as int,
                future as int,
            ).ilabel),
    {
        proof {
            use_type_invariant(self);
            reveal(FstView::wf);
        }
        self.missing_labels[missing] < self.external[self.future_words.get(future) as usize]
    }

    /// Where the futures of a state begin and end.
    fn future_range(&self, state: u32) -> (r: (usize, usize))
        requires
            state < self@.n(),
        ensures
            r.0 == self@.future_starts[state as int],
            r.1 == self@.future_starts[state + 1],
            r.0 <= r.1 <= self@.future_words.len(),
    {
        proof {
            use_type_invariant(self);
            reveal(FstView::wf);
            assert(self@.future_starts[state as int] <= self@.future_starts[state + 1]);
            assert(self@.future_starts[state + 1] <= self@.future_starts[self@.n()]);
        }
        (
            self.future_starts[state as usize] as usize,
            self.future_starts[state as usize + 1] as usize,
        )
    }

    /// The arcs of a state in label order, with the literal epsilon backoff first.
    pub fn arcs(&self, state: u32) -> (r: Result<Vec<Arc>, Error>)
        ensures
            match r {
                Ok(arcs) => state < self@.n() && arcs@ == self@.arcs(state as int),
                Err(e) => state >= self@.n() && e@ == out_of_range(state as int),
            },
    {
        self.check_state(state)?;
        let mut arcs: Vec<Arc> = Vec::new();
        if state != 0 {
            let (weight, nextstate) = self.backoff(state);
            arcs.push(Arc { ilabel: 0, olabel: 0, weight, nextstate });
        }
        let (start, future_end) = self.future_range(state);
        let mut future: usize = start;
        let mut missing: usize = 0;
        let missing_end: usize = if state == 0 {
            self.missing_labels.len()
        } else {
            0
        };
        let ghost goal = self@.arcs(state as int);
        assert(goal =~= arcs@ + self@.rest(state as int, missing as int, future as int));
        while future < future_end || missing < missing_end
            invariant
                state < self@.n(),
                future <= future_end <= self@.future_words.len(),
                future_end == self@.future_starts[state + 1],
                missing <= missing_end,
                missing_end == if state == 0 {
                    self@.missing_labels.len()
                } else {
                    0
                },
                goal == arcs@ + self@.rest(state as int, missing as int, future as int),
            decreases future_end - future + missing_end - missing,
        {
            let ghost before = arcs@;
            let take_missing: bool = missing < missing_end && (future >= future_end
                || self.missing_first(state, missing, future));
            if take_missing {
                let arc: Arc = self.missing_arc(missing);
                arcs.push(arc);
                proof {
                    self@.lemma_missing_next(missing as int, future as int);
                    let rest = self@.rest(state as int, missing + 1, future as int);
                    assert(before + (seq![arc] + rest) =~= arcs@ + rest);
                }
                missing += 1;
            } else {
                let arc: Arc = self.future_arc(state, future);
                arcs.push(arc);
                proof {
                    self@.lemma_future_next(state as int, missing as int, future as int);
                    let rest = self@.rest(state as int, missing as int, future + 1);
                    assert(before + (seq![arc] + rest) =~= arcs@ + rest);
                }
                future += 1;
            }
        }
        assert(self@.rest(state as int, missing as int, future as int) =~= Seq::<Arc>::empty());
        assert(goal =~= arcs@);
        Ok(arcs)
    }
}

impl FstView {
    /// The arcs of a state still to come.
    spec fn rest(self, s: int, missing: int, future: int) -> Seq<Arc> {
        if s == 0 {
            merge_arcs(self.missing_arcs(missing), self.future_arcs(0, future))
        } else {
            self.future_arcs(s, future)
        }
    }

    proof fn lemma_missing_next(self, missing: int, future: int)
        requires
            0 <= missing < self.missing_labels.len(),
            future <= self.future_starts[1],
            future == self.future_starts[1] || self.missing_arc(missing).ilabel < self.future_arc(
                0,
                future,
            ).ilabel,
        ensures
            self.rest(0, missing, future) == seq![self.missing_arc(missing)] + self.rest(
                0,
                missing + 1,
                future,
            ),
    {
        let ma = self.missing_arcs(missing);
        let fa = self.future_arcs(0, future);
        assert(ma.drop_first() =~= self.missing_arcs(missing + 1));
        assert(ma[0] == self.missing_arc(missing));
        if fa.len() == 0 {
            assert(ma =~= seq![ma[0]] + ma.drop_first());
            assert(merge_arcs(ma.drop_first(), fa) =~= ma.drop_first());
        } else {
            assert(fa[0] == self.future_arc(0, future));
        }
    }

    proof fn lemma_future_next(self, s: int, missing: int, future: int)
        requires
            0 <= future < self.future_starts[s + 1],
            s == 0 ==> 0 <= missing <= self.missing_labels.len(),
            s == 0 && missing < self.missing_labels.len() ==> self.missing_arc(missing).ilabel
                >= self.future_arc(s, future).ilabel,
        ensures
            self.rest(s, missing, future) == seq![self.future_arc(s, future)] + self.rest(
                s,
                missing,
                future + 1,
            ),
    {
        let ma = self.missing_arcs(missing);
        let fa = self.future_arcs(s, future);
        assert(fa[0] == self.future_arc(s, future));
        assert(fa.drop_first() =~= self.future_arcs(s, future + 1));
        assert(fa =~= seq![fa[0]] + fa.drop_first());
        if s == 0 {
            if ma.len() > 0 {
                assert(ma[0] == self.missing_arc(missing));
                assert(self.rest(s, missing, future) == merge_arcs(ma, fa));
            } else {
                assert(merge_arcs(ma, fa) == fa);
                assert(merge_arcs(ma, fa.drop_first()) == fa.drop_first());
            }
        }
    }
}

/// A state that is not there.
pub open spec fn out_of_range(state: int) -> ErrorView {
    ErrorView::Invalid("FST state out of range: "@ + crate::text::dec(state as nat))
}

/// Ascending numbers below a bound are no more than the bound.
proof fn lemma_ascending_length(items: Seq<u32>, bound: int)
    requires
        ascending(items, 0, items.len() as int),
        forall|i: int| 0 <= i < items.len() ==> (#[trigger] items[i]) < bound,
        0 <= bound,
    ensures
        items.len() <= bound,
    decreases items.len(),
{
    if items.len() > 0 {
        let rest = items.drop_last();
        assert forall|i: int| 0 <= i < rest.len() implies (#[trigger] rest[i]) < items.last() by {
            assert(items[i] < items[items.len() - 1]);
        }
        assert(ascending(rest, 0, rest.len() as int));
        lemma_ascending_length(rest, items.last() as int);
    }
}

/// Deterministic n-gram failure matcher for shallow fusion.
///
/// State 1 already encodes the beginning of the sentence, so no label for it is
/// ever consumed; final weights encode its end. Backoff arcs are taken only on a
/// missing label, so an explicit n-gram score is never undercut by a lower-order
/// alternative.
#[derive(Debug)]
pub struct BackoffLm<'a> {
    pub fst: CompactFst<'a>,
}

impl<'a> BackoffLm<'a> {
    pub fn new(fst: CompactFst<'a>) -> (r: Self)
        ensures
            r.fst == fst,
    {
        BackoffLm { fst }
    }
}

impl<'a> LanguageModel for BackoffLm<'a> {
    type State = u32;

    open spec fn start_state(&self) -> u32 {
        1
    }

    /// Invalid states reject.
    open spec fn next_state(&self, state: u32, ilabel: u32) -> Option<(u32, F64)> {
        if state >= self.fst@.n() {
            None
        } else {
            self.fst@.advance_from(state as int, ilabel, F64 { bits: 0 })
        }
    }

    open spec fn final_cost(&self, state: u32) -> F64 {
        if state >= self.fst@.n() {
            infinity()
        } else {
            self.fst@.finish_from(state as int, F64 { bits: 0 })
        }
    }

    fn start(&self) -> (r: u32) {
        self.fst.start()
    }

    /// Walk backoff arcs until the label matches or the unigram state rejects it.
    fn advance(&self, state: u32, ilabel: u32) -> (r: Option<(u32, F64)>) {
        if state >= self.fst.num_states() {
            return None;
        }
        let ghost v = self.fst@;
        let mut current: u32 = state;
        let mut cost: F64 = F64 { bits: 0 };
        loop
            invariant
                v == self.fst@,
                state < v.n(),
                current < v.n(),
                v.advance_from(state as int, ilabel, F64 { bits: 0 }) == v.advance_from(
                    current as int,
                    ilabel,
                    cost,
                ),
            decreases current,
        {
            match self.fst.direct(current, ilabel) {
                Some((target, weight)) => {
                    cost = cost.plus(weight);
                    return if cost.is_finite() {
                        Some((target, cost))
                    } else {
                        None
                    };
                },
                None => {},
            }
            if current == 0 {
                return None;
            }
            let (weight, parent) = self.fst.backoff(current);
            cost = cost.plus(weight);
            current = parent;
        }
    }

    /// Final weights encode the end, also reached through backoff.
    fn finish(&self, state: u32) -> (r: F64) {
        if state >= self.fst.num_states() {
            return F64 { bits: TOP64 };
        }
        let ghost v = self.fst@;
        let mut current: u32 = state;
        let mut cost: F64 = F64 { bits: 0 };
        loop
            invariant
                v == self.fst@,
                state < v.n(),
                current < v.n(),
                v.finish_from(state as int, F64 { bits: 0 }) == v.finish_from(current as int, cost),
            decreases current,
        {
            let last: F64 = self.fst.literal_final(current);
            if last.is_finite() || current == 0 {
                return cost.plus(last);
            }
            let (weight, parent) = self.fst.backoff(current);
            cost = cost.plus(weight);
            current = parent;
        }
    }
}


/// How many arcs the first `n` states have.
pub open spec fn arcs_before(v: FstView, n: nat) -> nat
    decreases n,
{
    if n == 0 {
        0
    } else {
        arcs_before(v, (n - 1) as nat) + v.arcs(n - 1).len()
    }
}

/// A merge has as many arcs as both its parts.
proof fn lemma_merge_length(a: Seq<Arc>, b: Seq<Arc>)
    ensures
        merge_arcs(a, b).len() == a.len() + b.len(),
    decreases a.len() + b.len(),
{
    if a.len() > 0 && b.len() > 0 {
        if a[0].ilabel < b[0].ilabel {
            lemma_merge_length(a.drop_first(), b);
        } else {
            lemma_merge_length(a, b.drop_first());
        }
    }
}

proof fn lemma_arcs_before(v: FstView, n: nat)
    requires
        v.wf(),
        1 <= n <= v.n(),
    ensures
        arcs_before(v, n) == v.future_starts[n as int] + n - 1 + v.missing_labels.len(),
    decreases n,
{
    reveal(FstView::wf);
    assert(v.future_starts[n - 1] <= v.future_starts[n as int]);
    if n == 1 {
        assert(arcs_before(v, 0) == 0);
        lemma_merge_length(v.missing_arcs(0), v.future_arcs(0, v.future_starts[0] as int));
    } else {
        lemma_arcs_before(v, (n - 1) as nat);
    }
}

/// The arcs of all states are as many as the acceptor says it has.
pub proof fn lemma_arc_count(v: FstView)
    requires
        v.wf(),
    ensures
        arcs_before(v, v.n() as nat) == v.num_arcs,
{
    reveal(FstView::wf);
    lemma_arcs_before(v, v.n() as nat);
}

/// Weights are numbers not below zero.
pub proof fn lemma_weight_nonnegative(v: FstView, code: u8)
    requires
        v.quantum.finite(),
        !v.quantum.negative(),
        v.quantum.index() > 0,
    ensures
        !v.weight(code).nan(),
        !v.weight(code).negative(),
{
    if code != QUANTIZED_INFINITY {
        let a = crate::float::lemma_of_int(code as int);
        let b = crate::float::lemma_product(a, v.quantum);
        let c = crate::float::lemma_widened(b);
    }
}

/// That an arc goes from a label in use to a state, at a cost not below zero.
pub open spec fn arc_valid(v: FstView, arc: Arc) -> bool {
    &&& arc.ilabel == arc.olabel
    &&& arc.ilabel < v.num_labels
    &&& arc.nextstate < v.n()
    &&& !arc.weight.nan()
    &&& !arc.weight.negative()
}

/// Arcs with ascending labels, none below a bound.
pub open spec fn sorted_from(arcs: Seq<Arc>, bound: int) -> bool {
    &&& forall|i: int, j: int| 0 <= i < j < arcs.len() ==> arcs[i].ilabel < arcs[j].ilabel
    &&& forall|i: int| 0 <= i < arcs.len() ==> (#[trigger] arcs[i]).ilabel >= bound
}

/// A merge of ascending arcs without a common label ascends, and holds what both
/// parts hold.
proof fn lemma_merge_sorted(v: FstView, a: Seq<Arc>, b: Seq<Arc>, bound: int)
    requires
        sorted_from(a, bound),
        sorted_from(b, bound),
        forall|i: int, j: int|
            0 <= i < a.len() && 0 <= j < b.len() ==> (#[trigger] a[i]).ilabel != (
            #[trigger] b[j]).ilabel,
        forall|i: int| 0 <= i < a.len() ==> arc_valid(v, #[trigger] a[i]),
        forall|i: int| 0 <= i < b.len() ==> arc_valid(v, #[trigger] b[i]),
    ensures
        sorted_from(merge_arcs(a, b), bound),
        forall|i: int|
            0 <= i < merge_arcs(a, b).len() ==> arc_valid(v, #[trigger] merge_arcs(a, b)[i]),
    decreases a.len() + b.len(),
{
    if a.len() > 0 && b.len() > 0 {
        assert(a[0].ilabel != b[0].ilabel);
        if a[0].ilabel < b[0].ilabel {
            let rest = merge_arcs(a.drop_first(), b);
            let next = a[0].ilabel + 1;
            assert(sorted_from(a.drop_first(), next));
            assert(sorted_from(b, next)) by {
                assert forall|j: int| 0 <= j < b.len() implies (#[trigger] b[j]).ilabel >= next by {
                    if j > 0 {
                        assert(b[0].ilabel < b[j].ilabel);
                    }
                }
            }
            lemma_merge_sorted(v, a.drop_first(), b, next);
            let whole = seq![a[0]] + rest;
            assert forall|i: int| 0 <= i < whole.len() implies arc_valid(v, #[trigger] whole[i])
                && whole[i].ilabel >= bound by {
                if i > 0 {
                    assert(whole[i] == rest[i - 1]);
                }
            }
            assert forall|i: int, j: int| 0 <= i < j < whole.len() implies whole[i].ilabel
                < whole[j].ilabel by {
                assert(whole[j] == rest[j - 1]);
                if i > 0 {
                    assert(whole[i] == rest[i - 1]);
                }
            }
        } else {
            let rest = merge_arcs(a, b.drop_first());
            let next = b[0].ilabel + 1;
            assert(sorted_from(b.drop_first(), next));
            assert(sorted_from(a, next)) by {
                assert forall|j: int| 0 <= j < a.len() implies (#[trigger] a[j]).ilabel >= next by {
                    if j > 0 {
                        assert(a[0].ilabel < a[j].ilabel);
                    }
                }
            }
            lemma_merge_sorted(v, a, b.drop_first(), next);
            let whole = seq![b[0]] + rest;
            assert forall|i: int| 0 <= i < whole.len() implies arc_valid(v, #[trigger] whole[i])
                && whole[i].ilabel >= bound by {
                if i > 0 {
                    assert(whole[i] == rest[i - 1]);
                }
            }
            assert forall|i: int, j: int| 0 <= i < j < whole.len() implies whole[i].ilabel
                < whole[j].ilabel by {
                assert(whole[j] == rest[j - 1]);
                if i > 0 {
                    assert(whole[i] == rest[i - 1]);
                }
            }
        }
    }
}

/// The future arcs of a state ascend, and are valid.
proof fn lemma_future_arcs(v: FstView, s: int)
    requires
        v.wf(),
        0 <= s < v.n(),
    ensures
        ({
            let arcs = v.future_arcs(s, v.future_starts[s] as int);
            &&& sorted_from(arcs, 1)
            &&& forall|i: int| 0 <= i < arcs.len() ==> arc_valid(v, #[trigger] arcs[i])
            &&& forall|i: int|
                0 <= i < arcs.len() ==> v.external.contains((#[trigger] arcs[i]).ilabel)
        }),
{
    reveal(FstView::wf);
    let lo = v.future_starts[s] as int;
    let arcs = v.future_arcs(s, lo);
    assert(v.future_starts[s] <= v.future_starts[s + 1]);
    assert(v.future_starts[s + 1] <= v.future_starts[v.n()]);
    assert forall|i: int| 0 <= i < arcs.len() implies {
        &&& arc_valid(v, #[trigger] arcs[i])
        &&& arcs[i].ilabel >= 1
        &&& v.external.contains(arcs[i].ilabel)
    } by {
        let w = v.future_words[lo + i];
        assert(0 < w < v.external.len());
        assert(v.external[0] < v.external[w as int]);
        v.trie.lemma_target(s, w);
        lemma_weight_nonnegative(v, v.future_weights[lo + i]);
    }
    assert forall|i: int, j: int| 0 <= i < j < arcs.len() implies arcs[i].ilabel
        < arcs[j].ilabel by {
        let a = v.future_words[lo + i];
        let b = v.future_words[lo + j];
        assert(ascending(
            v.future_words,
            v.future_starts[s] as int,
            v.future_starts[s + 1] as int,
        ));
        assert(a < b);
        assert(v.external[a as int] < v.external[b as int]);
    }
}

/// Every arc of a state has one label in use, ends at a state, and costs a number
/// not below zero; the labels of a state's arcs ascend.
pub proof fn lemma_arcs_valid(v: FstView, s: int)
    requires
        v.wf(),
        0 <= s < v.n(),
    ensures
        forall|i: int| 0 <= i < v.arcs(s).len() ==> arc_valid(v, #[trigger] v.arcs(s)[i]),
        sorted_from(v.arcs(s), 0),
{
    lemma_future_arcs(v, s);
    reveal(FstView::wf);
    let future = v.future_arcs(s, v.future_starts[s] as int);
    if s == 0 {
        let missing = v.missing_arcs(0);
        assert forall|i: int| 0 <= i < missing.len() implies arc_valid(
            v,
            #[trigger] missing[i],
        ) by {
            lemma_weight_nonnegative(v, v.missing_weights[i]);
        }
        assert(sorted_from(missing, 0));
        assert(sorted_from(future, 0));
        assert forall|i: int, j: int| 0 <= i < missing.len() && 0 <= j < future.len() implies (
        #[trigger] missing[i]).ilabel != (#[trigger] future[j]).ilabel by {
            assert(v.missing_labels[i] == missing[i].ilabel);
            assert(v.missing_labels.contains(missing[i].ilabel));
            assert(v.external.contains(future[j].ilabel));
        }
        lemma_merge_sorted(v, missing, future, 0);
    } else {
        lemma_weight_nonnegative(v, v.backoffs[s]);
        let arcs = v.arcs(s);
        assert forall|i: int| 0 <= i < arcs.len() implies arc_valid(v, #[trigger] arcs[i]) by {
            if i > 0 {
                assert(arcs[i] == future[i - 1]);
            }
        }
        assert forall|i: int, j: int| 0 <= i < j < arcs.len() implies arcs[i].ilabel
            < arcs[j].ilabel by {
            assert(arcs[j] == future[j - 1]);
            if i > 0 {
                assert(arcs[i] == future[i - 1]);
            }
        }
    }
}

/// An explicit n-gram is never replaced by a lower-order one, however cheap that
/// is: its weight decides alone, and an infinite one rejects.
pub proof fn lemma_explicit_ngram_decides(lm: BackoffLm<'_>, s: u32, label: u32)
    requires
        s < lm.fst@.n(),
        lm.fst@.direct(s as int, label) is Some,
    ensures
        lm.next_state(s, label) == ({
            let (target, weight) = lm.fst@.direct(s as int, label)->0;
            let total = F64 { bits: 0 }.sum(weight);
            if total.finite() {
                Some((target, total))
            } else {
                None
            }
        }),
{
}

} // verus!
