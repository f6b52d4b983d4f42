//! The string hash that turns seed parts into a terrain seed: each text's
//! UTF-16 code units folded as `hash * 31 + unit` in wrapping 32-bit
//! arithmetic, the result read as a signed value and taken by magnitude.
use vstd::prelude::*;

verus! {

/// The UTF-16 code units of one character.
pub open spec fn utf16_units(c: char) -> Seq<u32> {
    let v = c as u32;
    if v < 0x1_0000 {
        seq![v]
    } else {
        let w = (v - 0x1_0000) as u32;
        seq![(0xD800 + w / 1024) as u32, (0xDC00 + w % 1024) as u32]
    }
}

/// The UTF-16 code units of a text.
pub open spec fn text_units(s: Seq<char>) -> Seq<u32>
    decreases s.len(),
{
    if s.len() == 0 {
        Seq::empty()
    } else {
        text_units(s.drop_last()) + utf16_units(s.last())
    }
}

/// The UTF-16 code units of several texts, one after another.
pub open spec fn texts_units(ts: Seq<Seq<char>>) -> Seq<u32>
    decreases ts.len(),
{
    if ts.len() == 0 {
        Seq::empty()
    } else {
        texts_units(ts.drop_last()) + text_units(ts.last())
    }
}

/// The 32-bit hash state after folding `units` in.
pub open spec fn fold_units(units: Seq<u32>) -> nat
    decreases units.len(),
{
    if units.len() == 0 {
        0
    } else {
        ((31 * fold_units(units.drop_last()) + units.last()) % 0x1_0000_0000) as nat
    }
}

/// The magnitude of a 32-bit state read as a signed value.
pub open spec fn signed_magnitude(bits: nat) -> nat {
    if bits >= 0x8000_0000 {
        (0x1_0000_0000 - bits) as nat
    } else {
        bits
    }
}

proof fn lemma_fold_bound(units: Seq<u32>)
    ensures
        fold_units(units) < 0x1_0000_0000,
    decreases units.len(),
{
    if units.len() > 0 {
        lemma_fold_bound(units.drop_last());
    }
}

fn fold_unit(h: u32, u: u32) -> (r: u32)
    ensures
        r == (31 * h + u) % 0x1_0000_0000,
{
    let wide: u64 = h as u64 * 31 + u as u64;
    (wide % 0x1_0000_0000) as u32
}

/// The hash of the texts' UTF-16 code units, as the terrain seed takes it.
pub fn seed_text_hash(texts: &Vec<String>) -> (r: u32)
    ensures
        r == signed_magnitude(fold_units(texts_units(texts@.map_values(|t: String| t@)))),
{
    let ghost views = texts@.map_values(|t: String| t@);
    let mut h: u32 = 0;
    let ghost mut units: Seq<u32> = Seq::empty();
    let mut k: usize = 0;
    while k < texts.len()
        invariant
            k <= texts@.len(),
            views == texts@.map_values(|t: String| t@),
            units == texts_units(views.subrange(0, k as int)),
            h == fold_units(units),
        decreases texts@.len() - k,
    {
        let s = texts[k].as_str();
        let n = s.unicode_len();
        let ghost before = units;
        let mut j: usize = 0;
        while j < n
            invariant
                n == s@.len(),
                j <= n,
                units == before + text_units(s@.subrange(0, j as int)),
                h == fold_units(units),
            decreases n - j,
        {
            let c = s.get_char(j);
            let v = c as u32;
            let ghost prev = units;
            proof {
                assert(s@.subrange(0, j + 1).drop_last() =~= s@.subrange(0, j as int));
                assert(s@.subrange(0, j + 1).last() == c);
            }
            if v < 0x1_0000 {
                h = fold_unit(h, v);
                proof {
                    units = units.push(v);
                    assert(units.drop_last() =~= prev);
                    assert(fold_units(units) == (31 * fold_units(prev) + v) % 0x1_0000_0000);
                    assert(utf16_units(c) =~= seq![v]);
                    assert(units =~= before + text_units(s@.subrange(0, j + 1)));
                }
            } else {
                let w = v - 0x1_0000;
                let hi = 0xD800 + w / 1024;
                let lo = 0xDC00 + w % 1024;
                h = fold_unit(h, hi);
                proof {
                    units = units.push(hi);
                    assert(units.drop_last() =~= prev);
                    assert(fold_units(units) == (31 * fold_units(prev) + hi) % 0x1_0000_0000);
                }
                let ghost mid = units;
                h = fold_unit(h, lo);
                proof {
                    units = units.push(lo);
                    assert(units.drop_last() =~= mid);
                    assert(fold_units(units) == (31 * fold_units(mid) + lo) % 0x1_0000_0000);
                    assert(utf16_units(c) =~= seq![hi, lo]);
                    assert(units =~= before + text_units(s@.subrange(0, j + 1)));
                }
            }
            j = j + 1;
        }
        proof {
            assert(s@.subrange(0, n as int) =~= s@);
            assert(views.subrange(0, k + 1).drop_last() =~= views.subrange(0, k as int));
            assert(views.subrange(0, k + 1).last() == s@);
            assert(units =~= texts_units(views.subrange(0, k + 1)));
        }
        k = k + 1;
    }
    proof {
        assert(views.subrange(0, texts@.len() as int) =~= views);
        lemma_fold_bound(units);
    }
    if h >= 0x8000_0000 {
        ((0x1_0000_0000u64 - h as u64) as u32)
    } else {
        h
    }
}

} // verus!
