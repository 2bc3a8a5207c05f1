//! Spectra saved as JSON by tobes-ui: `"spd"` maps wavelengths in nm,
//! written as decimal strings, to intensities, and `"status"` names the
//! exposure state. The JSON itself is read outside the library; here the
//! keys become a wavelength axis sorted left to right, and the status
//! label becomes an `ExposureStatus`.

use vstd::prelude::*;
use crate::payload::ExposureStatus;
use crate::device::{DEFAULT_WAVELENGTH_END, DEFAULT_WAVELENGTH_START};

verus! {

/// An ASCII decimal digit.
pub open spec fn is_digit(b: u8) -> bool {
    48 <= b <= 57
}

/// Value of a string of decimal digits.
pub open spec fn decimal_value(s: Seq<u8>) -> nat
    decreases s.len(),
{
    if s.len() == 0 {
        0
    } else {
        decimal_value(s.drop_last()) * 10 + (s.last() - 48) as nat
    }
}

/// The digits of a key: without one leading `+`, if it has one.
pub open spec fn key_digits(s: Seq<u8>) -> Seq<u8> {
    if s.len() > 0 && s[0] == 43 {
        s.drop_first()
    } else {
        s
    }
}

/// The `u16` a key names, as Rust's `str::parse::<u16>` reads it: an
/// optional `+`, then one or more decimal digits, of value at most 65535.
pub open spec fn spec_parse_u16(s: Seq<u8>) -> Option<u16> {
    let d = key_digits(s);
    if d.len() == 0 || exists|i: int| 0 <= i < d.len() && !is_digit(#[trigger] d[i]) {
        None
    } else if decimal_value(d) > 65535 {
        None
    } else {
        Some(decimal_value(d) as u16)
    }
}

/// A prefix of a digit string has no greater value than the whole.
pub proof fn lemma_decimal_prefix(s: Seq<u8>, k: int)
    requires
        0 <= k <= s.len(),
        forall|i: int| 0 <= i < s.len() ==> is_digit(#[trigger] s[i]),
    ensures
        decimal_value(s.take(k)) <= decimal_value(s),
    decreases s.len(),
{
    if k < s.len() {
        assert(s.drop_last().take(k) =~= s.take(k));
        lemma_decimal_prefix(s.drop_last(), k);
    } else {
        assert(s.take(k) =~= s);
    }
}

/// Parses a wavelength key into nm.
pub fn parse_wavelength(key: &[u8]) -> (r: Option<u16>)
    ensures
        r == spec_parse_u16(key@),
{
    let start: usize = if key.len() > 0 && key[0] == 43 { 1 } else { 0 };
    let ghost d = key_digits(key@);
    assert(d =~= key@.skip(start as int));
    if start == key.len() {
        return None;
    }
    let mut acc: u32 = 0;
    let mut i: usize = start;
    while i < key.len()
        invariant
            start <= i <= key.len(),
            start < key.len(),
            d == key@.skip(start as int),
            d == key_digits(key@),
            forall|j: int| 0 <= j < i - start ==> is_digit(#[trigger] d[j]),
            acc as nat == decimal_value(d.take(i - start)),
            acc <= 65535,
        decreases key.len() - i,
    {
        let b = key[i];
        assert(d[i - start] == key@[i as int]);
        if b < 48 || b > 57 {
            assert(!is_digit(d[i - start]));
            return None;
        }
        let v: u32 = acc * 10 + (b - 48) as u32;
        proof {
            assert(d.take(i - start + 1).drop_last() =~= d.take(i - start));
            assert(d.take(i - start + 1).last() == b);
            assert(v as nat == decimal_value(d.take(i - start + 1)));
        }
        if v > 65535 {
            proof {
                if forall|j: int| 0 <= j < d.len() ==> is_digit(#[trigger] d[j]) {
                    lemma_decimal_prefix(d, i - start + 1);
                }
            }
            return None;
        }
        acc = v;
        i = i + 1;
    }
    assert(d.take(key.len() - start) =~= d);
    Some(acc as u16)
}

/// ASCII lower case of a byte.
pub open spec fn ascii_lower(b: u8) -> u8 {
    if 65 <= b <= 90 {
        (b + 32) as u8
    } else {
        b
    }
}

/// `s` equals `word` (lower case) ignoring ASCII case.
pub open spec fn matches_ignoring_case(s: Seq<u8>, word: Seq<u8>) -> bool {
    s.len() == word.len() && forall|i: int| 0 <= i < s.len() ==> ascii_lower(#[trigger] s[i]) == word[i]
}

/// `over` in ASCII.
pub open spec fn word_over() -> Seq<u8> {
    seq![111u8, 118u8, 101u8, 114u8]
}

/// `under` in ASCII.
pub open spec fn word_under() -> Seq<u8> {
    seq![117u8, 110u8, 100u8, 101u8, 114u8]
}

/// Status named by a label: `over` or `under` in any case, otherwise normal.
pub open spec fn spec_status_from_label(s: Seq<u8>) -> ExposureStatus {
    if matches_ignoring_case(s, word_over()) {
        ExposureStatus::Over
    } else if matches_ignoring_case(s, word_under()) {
        ExposureStatus::Under
    } else {
        ExposureStatus::Normal
    }
}

/// Whether `s` equals `word` ignoring ASCII case.
fn eq_ignore_case(s: &[u8], word: &[u8]) -> (r: bool)
    ensures
        r == matches_ignoring_case(s@, word@),
{
    if s.len() != word.len() {
        return false;
    }
    let mut i: usize = 0;
    while i < s.len()
        invariant
            s@.len() == word@.len(),
            i <= s@.len(),
            forall|j: int| 0 <= j < i ==> ascii_lower(#[trigger] s@[j]) == word@[j],
        decreases s.len() - i,
    {
        let b = s[i];
        let lower: u8 = if 65 <= b && b <= 90 { b + 32 } else { b };
        if lower != word[i] {
            return false;
        }
        i = i + 1;
    }
    true
}

/// The exposure status a saved spectrum names by its UTF-8 label.
pub fn status_from_label(label: &[u8]) -> (r: ExposureStatus)
    ensures
        r == spec_status_from_label(label@),
{
    let over: [u8; 4] = [111, 118, 101, 114];
    let under: [u8; 5] = [117, 110, 100, 101, 114];
    assert(over@ =~= word_over());
    assert(under@ =~= word_under());
    if eq_ignore_case(label, &over) {
        ExposureStatus::Over
    } else if eq_ignore_case(label, &under) {
        ExposureStatus::Under
    } else {
        ExposureStatus::Normal
    }
}

/// A label whose bytes, with each of `A..Z` taken to `a..z`, spell `over`
/// names Over; one that spells `under` names Under; any other names Normal.
pub proof fn law_status_label_ignores_case(s: Seq<u8>)
    ensures
        ({
            let lowered = Seq::new(s.len(), |i: int| if 65 <= s[i] <= 90 { (s[i] + 32) as u8 } else { s[i] });
            &&& lowered == seq![111u8, 118u8, 101u8, 114u8] ==> spec_status_from_label(s) == ExposureStatus::Over
            &&& lowered == seq![117u8, 110u8, 100u8, 101u8, 114u8] ==> spec_status_from_label(s) == ExposureStatus::Under
            &&& lowered != seq![111u8, 118u8, 101u8, 114u8] && lowered != seq![117u8, 110u8, 100u8, 101u8, 114u8]
                ==> spec_status_from_label(s) == ExposureStatus::Normal
        }),
{
    let lowered = Seq::new(s.len(), |i: int| if 65 <= s[i] <= 90 { (s[i] + 32) as u8 } else { s[i] });
    assert forall|i: int| 0 <= i < s.len() implies ascii_lower(s[i]) == lowered[i] by {}
    if matches_ignoring_case(s, word_over()) {
        assert(lowered =~= word_over());
    }
    if matches_ignoring_case(s, word_under()) {
        assert(lowered =~= word_under());
    }
    if lowered == word_over() {
        assert(matches_ignoring_case(s, word_over()));
    }
    if lowered == word_under() {
        assert(matches_ignoring_case(s, word_under()));
    }
}

/// Ordering of entries by wavelength, then by position among the keys.
pub open spec fn entry_before(w1: u16, i1: usize, w2: u16, i2: usize) -> bool {
    w1 < w2 || (w1 == w2 && i1 < i2)
}

/// The layout of a saved spectrum: which keys name a wavelength, in
/// ascending order of wavelength, and the range they span.
pub struct FileLayout {
    /// Positions of the kept keys, left to right.
    pub order: Vec<usize>,
    /// The wavelength of each kept key, in the same order.
    pub wavelengths: Vec<u16>,
    pub wavelength_start: u16,
    pub wavelength_end: u16,
}

/// `l` lays out `keys`: it keeps exactly the keys that name a wavelength,
/// each once, sorted by wavelength with ties in key order; the range runs
/// from the first to the last wavelength, or is 340..=1000 when none is kept.
pub open spec fn layout_matches(l: FileLayout, keys: Seq<Seq<u8>>) -> bool {
    let n = l.order@.len();
    &&& l.wavelengths@.len() == n
    &&& forall|k: int| 0 <= k < n ==> {
        &&& (#[trigger] l.order@[k]) < keys.len()
        &&& spec_parse_u16(keys[l.order@[k] as int]) == Some(l.wavelengths@[k])
    }
    &&& forall|i: int| 0 <= i < keys.len() && (#[trigger] spec_parse_u16(keys[i])) is Some
        ==> l.order@.contains(i as usize)
    &&& forall|j: int, k: int| 0 <= j < k < n ==> entry_before(
        #[trigger] l.wavelengths@[j], l.order@[j], #[trigger] l.wavelengths@[k], l.order@[k])
    &&& l.wavelength_start == if n > 0 { l.wavelengths@[0] } else { DEFAULT_WAVELENGTH_START }
    &&& l.wavelength_end == if n > 0 { l.wavelengths@[n - 1] } else { DEFAULT_WAVELENGTH_END }
}

/// The views of the keys.
pub open spec fn keys_view(keys: Seq<Vec<u8>>) -> Seq<Seq<u8>> {
    keys.map_values(|k: Vec<u8>| k@)
}

/// Lays out the keys of a saved spectrum (see `layout_matches`).
pub fn layout_spectrum(keys: &Vec<Vec<u8>>) -> (l: FileLayout)
    ensures
        layout_matches(l, keys_view(keys@)),
{
    let ghost kv = keys_view(keys@);
    let mut order: Vec<usize> = Vec::new();
    let mut wls: Vec<u16> = Vec::new();
    let mut i: usize = 0;
    while i < keys.len()
        invariant
            i <= keys@.len(),
            kv == keys_view(keys@),
            kv.len() == keys@.len(),
            order@.len() == wls@.len(),
            forall|k: int| 0 <= k < order@.len() ==> {
                &&& (#[trigger] order@[k]) < i
                &&& spec_parse_u16(kv[order@[k] as int]) == Some(wls@[k])
            },
            forall|j: int| 0 <= j < i && (#[trigger] spec_parse_u16(kv[j])) is Some
                ==> order@.contains(j as usize),
            forall|j: int, k: int| 0 <= j < k < order@.len() ==> entry_before(
                #[trigger] wls@[j], order@[j], #[trigger] wls@[k], order@[k]),
        decreases keys.len() - i,
    {
        assert(kv[i as int] == keys@[i as int]@);
        match parse_wavelength(keys[i].as_slice()) {
            Some(w) => {
                let mut pos: usize = 0;
                while pos < wls.len() && wls[pos] <= w
                    invariant
                        pos <= wls@.len(),
                        forall|k: int| 0 <= k < pos ==> wls@[k] <= w,
                    decreases wls.len() - pos,
                {
                    pos = pos + 1;
                }
                let ghost old_order = order@;
                let ghost old_wls = wls@;
                assert forall|k: int| pos <= k < old_wls.len() implies old_wls[k] > w by {
                    if k > pos {
                        assert(entry_before(old_wls[pos as int], old_order[pos as int], old_wls[k], old_order[k]));
                    }
                }
                order.insert(pos, i);
                wls.insert(pos, w);
                assert forall|j: int, k: int| 0 <= j < k < order@.len() implies entry_before(
                    #[trigger] wls@[j], order@[j], #[trigger] wls@[k], order@[k]) by {
                    if k < pos {
                        assert(entry_before(old_wls[j], old_order[j], old_wls[k], old_order[k]));
                    } else if k == pos {
                        assert(old_order[j] < i);
                    } else if j < pos {
                        assert(entry_before(old_wls[j], old_order[j], old_wls[k - 1], old_order[k - 1]));
                    } else if j == pos {
                        assert(old_wls[k - 1] > w);
                    } else {
                        assert(entry_before(old_wls[j - 1], old_order[j - 1], old_wls[k - 1], old_order[k - 1]));
                    }
                }
                assert forall|k: int| 0 <= k < order@.len() implies {
                    &&& (#[trigger] order@[k]) < i + 1
                    &&& spec_parse_u16(kv[order@[k] as int]) == Some(wls@[k])
                } by {
                    if k < pos {
                        assert(order@[k] == old_order[k]);
                    } else if k > pos {
                        assert(order@[k] == old_order[k - 1]);
                    }
                }
                assert forall|j: int| 0 <= j < i + 1 && (#[trigger] spec_parse_u16(kv[j])) is Some
                    implies order@.contains(j as usize) by {
                    if j == i {
                        assert(order@[pos as int] == i);
                    } else {
                        assert(old_order.contains(j as usize));
                        let k = choose|k: int| 0 <= k < old_order.len() && old_order[k] == j as usize;
                        if k < pos {
                            assert(order@[k] == j as usize);
                        } else {
                            assert(order@[k + 1] == j as usize);
                        }
                    }
                }
            },
            None => {
                assert forall|j: int| 0 <= j < i + 1 && (#[trigger] spec_parse_u16(kv[j])) is Some
                    implies order@.contains(j as usize) by {
                }
            },
        }
        i = i + 1;
    }
    let n = wls.len();
    let wavelength_start = if n > 0 { wls[0] } else { DEFAULT_WAVELENGTH_START };
    let wavelength_end = if n > 0 { wls[n - 1] } else { DEFAULT_WAVELENGTH_END };
    FileLayout { order, wavelengths: wls, wavelength_start, wavelength_end }
}


/// A laid-out spectrum runs left to right: wavelengths never decrease, the
/// range starts at the smallest and ends at the largest, and there is one
/// kept key per wavelength, each a different key.
pub proof fn law_layout_ascending(l: FileLayout, keys: Seq<Seq<u8>>)
    requires
        layout_matches(l, keys),
    ensures
        forall|j: int, k: int| 0 <= j <= k < l.wavelengths@.len() ==>
            #[trigger] l.wavelengths@[j] <= #[trigger] l.wavelengths@[k],
        forall|j: int, k: int| 0 <= j < k < l.order@.len() ==>
            #[trigger] l.order@[j] != #[trigger] l.order@[k],
        l.wavelengths@.len() > 0 ==> forall|k: int| 0 <= k < l.wavelengths@.len() ==>
            l.wavelength_start <= #[trigger] l.wavelengths@[k] <= l.wavelength_end,
{
    let n = l.wavelengths@.len() as int;
    assert forall|j: int, k: int| 0 <= j <= k < n implies
        #[trigger] l.wavelengths@[j] <= #[trigger] l.wavelengths@[k] by {
        if j < k {
            assert(entry_before(l.wavelengths@[j], l.order@[j], l.wavelengths@[k], l.order@[k]));
        }
    }
    assert forall|j: int, k: int| 0 <= j < k < l.order@.len() implies
        #[trigger] l.order@[j] != #[trigger] l.order@[k] by {
        assert(entry_before(l.wavelengths@[j], l.order@[j], l.wavelengths@[k], l.order@[k]));
    }
    if n > 0 {
        assert forall|k: int| 0 <= k < n implies
            l.wavelength_start <= #[trigger] l.wavelengths@[k] <= l.wavelength_end by {
            assert(l.wavelengths@[0] <= l.wavelengths@[k]);
            assert(l.wavelengths@[k] <= l.wavelengths@[n - 1]);
        }
    }
}

} // verus!
