//! General properties of the structural offsets of a buffer.

use vstd::prelude::*;

use crate::parser::{
    inside_quote, is_separator, lemma_offsets_extend, lemma_quote_count_concat, offsets_from,
    quote_count, structural_offsets, QUOTE,
};

verus! {

/// Offsets of every separator of `s`, quoted or not, shifted by `base`.
pub open spec fn separator_positions(s: Seq<u8>, base: int) -> Seq<u32>
    decreases s.len(),
{
    if s.len() == 0 {
        Seq::empty()
    } else {
        separator_positions(s.drop_last(), base) + if is_separator(s.last()) {
            seq![(base + s.len() - 1) as u32]
        } else {
            Seq::empty()
        }
    }
}

/// Every offset produced for `s` (scanned from state `q0`, shifted by `base`)
/// points inside `s`, at a separator that lies outside quotes; and the offsets
/// are strictly increasing.
pub proof fn lemma_offsets_sound(s: Seq<u8>, q0: bool, base: int)
    requires
        0 <= base,
        base + s.len() <= 0x1_0000_0000,
    ensures
        forall|i: int|
            0 <= i < offsets_from(s, q0, base).len() ==> {
                let o = #[trigger] offsets_from(s, q0, base)[i] - base;
                0 <= o < s.len() && is_separator(s[o]) && !inside_quote(s.subrange(0, o), q0)
            },
        forall|i: int, j: int|
            0 <= i < j < offsets_from(s, q0, base).len() ==> offsets_from(s, q0, base)[i]
                < offsets_from(s, q0, base)[j],
    decreases s.len(),
{
    if s.len() > 0 {
        let p = s.drop_last();
        lemma_offsets_sound(p, q0, base);
        assert forall|i: int| 0 <= i < offsets_from(p, q0, base).len() implies s.subrange(
            0,
            offsets_from(p, q0, base)[i] - base,
        ) == p.subrange(0, offsets_from(p, q0, base)[i] - base) by {}
        assert(s.subrange(0, p.len() as int) == p);
    }
}

/// Every separator of `s` that lies outside quotes has its offset among those
/// produced for `s`.
pub proof fn lemma_offsets_complete(s: Seq<u8>, q0: bool, base: int, o: int)
    requires
        0 <= base,
        base + s.len() <= 0x1_0000_0000,
        0 <= o < s.len(),
        is_separator(s[o]),
        !inside_quote(s.subrange(0, o), q0),
    ensures
        offsets_from(s, q0, base).contains((base + o) as u32),
    decreases s.len(),
{
    let p = s.drop_last();
    if o < s.len() - 1 {
        assert(s.subrange(0, o) == p.subrange(0, o));
        lemma_offsets_complete(p, q0, base, o);
        let i = choose|i: int|
            0 <= i < offsets_from(p, q0, base).len() && offsets_from(p, q0, base)[i] == (base
                + o) as u32;
        assert(offsets_from(s, q0, base)[i] == (base + o) as u32);
    } else {
        assert(s.subrange(0, o) == p);
        let n = offsets_from(p, q0, base).len();
        assert(offsets_from(s, q0, base)[n as int] == (base + o) as u32);
    }
}

/// A separator at offset `o` of a document is reported if and only if an even
/// number of `"` bytes precede it.
pub proof fn lemma_reported_iff_even_quotes(s: Seq<u8>, o: int)
    requires
        s.len() < 0x1_0000_0000,
        0 <= o < s.len(),
        is_separator(s[o]),
    ensures
        structural_offsets(s).contains(o as u32) <==> quote_count(s.subrange(0, o)) % 2 == 0,
{
    lemma_offsets_sound(s, false, 0);
    if quote_count(s.subrange(0, o)) % 2 == 0 {
        lemma_offsets_complete(s, false, 0, o);
    }
    if structural_offsets(s).contains(o as u32) {
        let i = choose|i: int|
            0 <= i < structural_offsets(s).len() && structural_offsets(s)[i] == o as u32;
        assert(structural_offsets(s)[i] - 0 == o);
    }
}

/// Without any `"` byte every separator is structural.
pub proof fn lemma_no_quotes_all_separators(s: Seq<u8>, base: int)
    requires
        quote_count(s) == 0,
    ensures
        offsets_from(s, false, base) == separator_positions(s, base),
    decreases s.len(),
{
    if s.len() > 0 {
        let p = s.drop_last();
        lemma_no_quotes_all_separators(p, base);
    }
}

/// Scanning a document in two parts split at a block boundary, the second part
/// started from the region state at the end of the first and its offsets shifted
/// by the first part's length, gives the offsets of a single scan.
pub proof fn lemma_split_at_block(s: Seq<u8>, k: int)
    requires
        0 <= k <= s.len(),
        k % 64 == 0,
    ensures
        structural_offsets(s) == structural_offsets(s.subrange(0, k)) + offsets_from(
            s.subrange(k, s.len() as int),
            inside_quote(s.subrange(0, k), false),
            k,
        ),
{
    lemma_offsets_extend(s, k, s.len() as int);
    assert(s.subrange(0, s.len() as int) == s);
}

/// A sequence without `"` bytes counts none.
pub proof fn lemma_quote_count_none(t: Seq<u8>)
    requires
        forall|i: int| 0 <= i < t.len() ==> t[i] != QUOTE,
    ensures
        quote_count(t) == 0,
    decreases t.len(),
{
    if t.len() > 0 {
        lemma_quote_count_none(t.drop_last());
    }
}

/// A `"` at `p` that opens a region no later `"` closes hides every separator
/// after it: no offset reaches `p`.
pub proof fn lemma_unmatched_quote_hides_rest(s: Seq<u8>, p: int)
    requires
        s.len() < 0x1_0000_0000,
        0 <= p < s.len(),
        s[p] == QUOTE,
        quote_count(s.subrange(0, p + 1)) % 2 == 1,
        forall|i: int| p < i < s.len() ==> s[i] != QUOTE,
    ensures
        forall|i: int| 0 <= i < structural_offsets(s).len() ==> #[trigger] structural_offsets(s)[i] < p,
{
    lemma_offsets_sound(s, false, 0);
    assert forall|i: int| 0 <= i < structural_offsets(s).len() implies #[trigger] structural_offsets(
        s,
    )[i] < p by {
        let o = structural_offsets(s)[i] - 0;
        if o > p {
            let rest = s.subrange(p + 1, o);
            assert forall|k: int| 0 <= k < rest.len() implies rest[k] != QUOTE by {
                assert(rest[k] == s[p + 1 + k]);
            }
            lemma_quote_count_none(rest);
            assert(s.subrange(0, o) == s.subrange(0, p + 1) + rest);
            lemma_quote_count_concat(s.subrange(0, p + 1), rest);
        }
    }
}

} // verus!
