//! Ingesting externally produced deals.
//!
//! Two sources are supported: bracketed integer lists (one exact deal
//! per list, already in this crate's card encoding), and game-number
//! seeds, from which the originating application's shuffle is
//! reproduced exactly (a 31-bit linear-congruential generator for
//! small and `ms` seeds, a Mersenne Twister seeded from the full
//! decimal number for large ones).
//!
//! All parsing contracts are stated over the UTF-8 bytes of the input
//! string; the delimiters and digits involved are ASCII, so byte-wise
//! scanning is exact.

use crate::card::{card_valid, Card};
use vstd::string::StringSliceAdditionalSpecFns;
use vstd::prelude::*;

verus! {

/// One externally supplied deal: a human-readable label and the exact
/// permutation in dealing order.
#[derive(Debug)]
pub struct DeckSpec {
    /// Human-readable label (seed, file label, etc.)
    pub label: String,
    /// The exact deck permutation in dealing order.
    pub deck: Vec<Card>,
}

impl Clone for DeckSpec {
    fn clone(&self) -> (res: Self)
        ensures
            res.label@ == self.label@,
            res.deck@ == self.deck@,
    {
        let res = DeckSpec { label: self.label.clone(), deck: self.deck.clone() };
        proof {
            assert(res.deck@ =~= self.deck@);
        }
        res
    }
}

/// ASCII decimal digit.
pub open spec fn is_digit_b(b: u8) -> bool {
    48 <= b <= 57
}

/// ASCII whitespace, the characters `trim` strips from these inputs.
pub open spec fn is_ws_b(b: u8) -> bool {
    b == 32 || b == 9 || b == 10 || b == 13 || b == 11 || b == 12
}

/// Index of the first occurrence of `ch`, or -1.
pub open spec fn find_byte(b: Seq<u8>, ch: u8) -> int
    decreases b.len(),
{
    if b.len() == 0 {
        -1
    } else if b[0] == ch {
        0
    } else {
        let r = find_byte(b.drop_first(), ch);
        if r == -1 {
            -1
        } else {
            r + 1
        }
    }
}

/// Index of the last occurrence of `ch`, or -1.
pub open spec fn rfind_byte(b: Seq<u8>, ch: u8) -> int
    decreases b.len(),
{
    if b.len() == 0 {
        -1
    } else if b.last() == ch {
        b.len() - 1
    } else {
        rfind_byte(b.drop_last(), ch)
    }
}

/// `find_byte` returns the first occurrence: either -1 with no
/// occurrence at all, or a position holding `ch` with none before it.
pub proof fn lemma_find_byte(b: Seq<u8>, ch: u8)
    ensures
        find_byte(b, ch) == -1 ==> forall|k: int| 0 <= k < b.len() ==> b[k] != ch,
        find_byte(b, ch) != -1 ==> {
            &&& 0 <= find_byte(b, ch) < b.len()
            &&& b[find_byte(b, ch)] == ch
            &&& forall|k: int| 0 <= k < find_byte(b, ch) ==> b[k] != ch
        },
    decreases b.len(),
{
    if b.len() > 0 && b[0] != ch {
        let d = b.drop_first();
        lemma_find_byte(d, ch);
        if find_byte(d, ch) == -1 {
            assert forall|k: int| 0 <= k < b.len() implies b[k] != ch by {
                if k > 0 {
                    assert(d[k - 1] == b[k]);
                    assert(d[k - 1] != ch);
                }
            }
        } else {
            let r = find_byte(d, ch);
            assert(b[r + 1] == d[r]);
            assert forall|k: int| 0 <= k < r + 1 implies b[k] != ch by {
                if k > 0 {
                    assert(d[k - 1] == b[k]);
                    assert(d[k - 1] != ch);
                }
            }
        }
    }
}

/// `rfind_byte` returns the last occurrence: either -1 with no
/// occurrence at all, or a position holding `ch` with none after it.
pub proof fn lemma_rfind_byte(b: Seq<u8>, ch: u8)
    ensures
        rfind_byte(b, ch) == -1 ==> forall|k: int| 0 <= k < b.len() ==> b[k] != ch,
        rfind_byte(b, ch) != -1 ==> {
            &&& 0 <= rfind_byte(b, ch) < b.len()
            &&& b[rfind_byte(b, ch)] == ch
            &&& forall|k: int| rfind_byte(b, ch) < k < b.len() ==> b[k] != ch
        },
    decreases b.len(),
{
    if b.len() > 0 && b.last() != ch {
        let d = b.drop_last();
        lemma_rfind_byte(d, ch);
        assert forall|k: int| 0 <= k < d.len() implies d[k] == b[k] by {}
    }
}

/// Bytes with leading ASCII whitespace removed.
pub open spec fn trim_start_b(s: Seq<u8>) -> Seq<u8>
    decreases s.len(),
{
    if s.len() > 0 && is_ws_b(s[0]) {
        trim_start_b(s.drop_first())
    } else {
        s
    }
}

/// Bytes with trailing ASCII whitespace removed.
pub open spec fn trim_end_b(s: Seq<u8>) -> Seq<u8>
    decreases s.len(),
{
    if s.len() > 0 && is_ws_b(s.last()) {
        trim_end_b(s.drop_last())
    } else {
        s
    }
}

/// Bytes trimmed on both sides.
pub open spec fn trim_b(s: Seq<u8>) -> Seq<u8> {
    trim_end_b(trim_start_b(s))
}

/// All bytes are ASCII digits.
pub open spec fn all_digits_b(s: Seq<u8>) -> bool {
    forall|i: int| 0 <= i < s.len() ==> is_digit_b(#[trigger] s[i])
}

/// The integer a sequence of ASCII digits denotes.
pub open spec fn int_of_digits(s: Seq<u8>) -> int
    decreases s.len(),
{
    if s.len() == 0 {
        0
    } else {
        int_of_digits(s.drop_last()) * 10 + (s.last() - 48)
    }
}

/// Parsing one comma-separated token as a `u8`: trim it, allow one
/// leading `+`, then require nonempty all-digits with value at most
/// 255.
pub open spec fn parse_u8_token(t: Seq<u8>) -> Option<u8> {
    let t1 = trim_b(t);
    let t2 = if t1.len() > 0 && t1[0] == 43 {
        t1.drop_first()
    } else {
        t1
    };
    if t2.len() == 0 || !all_digits_b(t2) || int_of_digits(t2) > 255 {
        None
    } else {
        Some(int_of_digits(t2) as u8)
    }
}

/// Split on commas and parse each non-blank token as a `u8`; blank
/// tokens are skipped. `None` when any non-blank token is malformed.
pub open spec fn parse_tokens(b: Seq<u8>) -> Option<Seq<u8>>
    decreases b.len(),
    via parse_tokens_decreases
{
    let p = find_byte(b, 44);
    if p == -1 {
        if trim_b(b).len() == 0 {
            Some(Seq::empty())
        } else {
            match parse_u8_token(b) {
                Some(v) => Some(seq![v]),
                None => None,
            }
        }
    } else {
        let head: Option<Seq<u8>> = if trim_b(b.take(p)).len() == 0 {
            Some(Seq::empty())
        } else {
            match parse_u8_token(b.take(p)) {
                Some(v) => Some(seq![v]),
                None => None,
            }
        };
        match (head, parse_tokens(b.skip(p + 1))) {
            (Some(h), Some(rest)) => Some(h + rest),
            _ => None,
        }
    }
}

#[via_fn]
proof fn parse_tokens_decreases(b: Seq<u8>) {
    lemma_find_byte(b, 44);
}

/// First range-or-duplicate violation while walking the parsed
/// numbers in order: 0 when clean, 5 for a value outside `0..52`,
/// 6 for a duplicate.
pub open spec fn validate_nums(nums: Seq<u8>, i: int) -> int
    decreases nums.len() - i,
{
    if i < 0 || i >= nums.len() {
        0
    } else if nums[i] >= 52 {
        5
    } else if nums.take(i).contains(nums[i]) {
        6
    } else {
        validate_nums(nums, i + 1)
    }
}

/// The whole bracketed-deck-list parse, as a function of the input
/// bytes. Error codes: 0 no `[`, 1 no `]`, 2 brackets out of order,
/// 3 malformed number token, 4 wrong count, 5 out of range, 6
/// duplicate.
pub open spec fn spec_parse_deck(b: Seq<u8>) -> Result<Seq<u8>, int> {
    let open = find_byte(b, 91);
    let close = rfind_byte(b, 93);
    if open == -1 {
        Err(0)
    } else if close == -1 {
        Err(1)
    } else if close <= open {
        Err(2)
    } else {
        match parse_tokens(b.subrange(open + 1, close)) {
            None => Err(3),
            Some(nums) => {
                if nums.len() != 52 {
                    Err(4)
                } else if validate_nums(nums, 0) != 0 {
                    Err(validate_nums(nums, 0))
                } else {
                    Ok(nums)
                }
            },
        }
    }
}

/// The message reported for each parse error code.
pub open spec fn parse_err_msg(code: int) -> Seq<char> {
    if code == 0 {
        "missing '['"@
    } else if code == 1 {
        "missing ']'"@
    } else if code == 2 {
        "malformed [...] list"@
    } else if code == 3 {
        "could not parse a deck entry as u8"@
    } else if code == 4 {
        "deck list must have exactly 52 numbers"@
    } else if code == 5 {
        "card index out of range 0..=51"@
    } else {
        "duplicate card index"@
    }
}

/// Find the first occurrence of a byte in a slice.
fn find_byte_at(b: &[u8], ch: u8) -> (r: Option<usize>)
    ensures
        r is None ==> find_byte(b@, ch) == -1,
        r is Some ==> r.unwrap() == find_byte(b@, ch),
{
    proof {
        lemma_find_byte(b@, ch);
    }
    let mut i: usize = 0;
    while i < b.len()
        invariant
            i <= b@.len(),
            forall|k: int| 0 <= k < i ==> b@[k] != ch,
        decreases b@.len() - i,
    {
        if b[i] == ch {
            proof {
                lemma_find_byte(b@, ch);
            }
            return Some(i);
        }
        i = i + 1;
    }
    None
}

/// Find the last occurrence of a byte in a slice.
fn rfind_byte_at(b: &[u8], ch: u8) -> (r: Option<usize>)
    ensures
        r is None ==> rfind_byte(b@, ch) == -1,
        r is Some ==> r.unwrap() == rfind_byte(b@, ch),
{
    proof {
        lemma_rfind_byte(b@, ch);
    }
    let mut i: usize = b.len();
    while i > 0
        invariant
            i <= b@.len(),
            forall|k: int| i <= k < b@.len() ==> b@[k] != ch,
        decreases i,
    {
        i = i - 1;
        if b[i] == ch {
            proof {
                lemma_rfind_byte(b@, ch);
            }
            return Some(i);
        }
    }
    None
}

/// `trim_start_b` drops exactly the leading whitespace run.
proof fn lemma_trim_start(s: Seq<u8>, k: int)
    requires
        0 <= k <= s.len(),
        forall|j: int| 0 <= j < k ==> is_ws_b(#[trigger] s[j]),
        k < s.len() ==> !is_ws_b(s[k]),
    ensures
        trim_start_b(s) == s.skip(k),
    decreases k,
{
    if k == 0 {
        if s.len() > 0 && is_ws_b(s[0]) {
            assert(false);
        }
        assert(s.skip(0) =~= s);
    } else {
        assert(is_ws_b(s[0]));
        lemma_trim_start(s.drop_first(), k - 1);
        assert(s.drop_first().skip(k - 1) =~= s.skip(k));
    }
}

/// `trim_end_b` drops exactly the trailing whitespace run.
proof fn lemma_trim_end(s: Seq<u8>, k: int)
    requires
        0 <= k <= s.len(),
        forall|j: int| k <= j < s.len() ==> is_ws_b(#[trigger] s[j]),
        k > 0 ==> !is_ws_b(s[k - 1]),
    ensures
        trim_end_b(s) == s.take(k),
    decreases s.len() - k,
{
    if k == s.len() {
        if s.len() > 0 && is_ws_b(s.last()) {
            lemma_trim_end(s.drop_last(), k - 1);
            assert(false);
        } else {
            assert(s.take(k) =~= s);
        }
    } else {
        assert(is_ws_b(s.last()));
        lemma_trim_end(s.drop_last(), k);
        assert(s.drop_last().take(k) =~= s.take(k));
    }
}

/// Parse one trimmed comma-separated token as a `u8`, mirroring
/// `parse_u8_token` exactly.
fn token_u8(t: &[u8]) -> (r: Option<u8>)
    ensures
        r == parse_u8_token(t@),
{
    // Trim leading whitespace.
    let mut start: usize = 0;
    while start < t.len() && is_ws_byte(t[start])
        invariant
            start <= t@.len(),
            forall|j: int| 0 <= j < start ==> is_ws_b(#[trigger] t@[j]),
        decreases t@.len() - start,
    {
        start = start + 1;
    }
    proof {
        lemma_trim_start(t@, start as int);
    }
    // Trim trailing whitespace.
    let mut end: usize = t.len();
    while end > start && is_ws_byte(t[end - 1])
        invariant
            start <= end <= t@.len(),
            forall|j: int| end <= j < t@.len() ==> is_ws_b(#[trigger] t@[j]),
        decreases end,
    {
        end = end - 1;
    }
    let ghost t1 = trim_b(t@);
    proof {
        let sk = t@.skip(start as int);
        assert forall|j: int| end - start <= j < sk.len() implies is_ws_b(#[trigger] sk[j]) by {
            assert(sk[j] == t@[j + start]);
        }
        if end > start {
            assert(sk[end - start - 1] == t@[end - 1]);
        }
        lemma_trim_end(sk, end - start);
        assert(t1 =~= t@.subrange(start as int, end as int));
    }

    // Optional leading '+'.
    let mut p = start;
    if p < end && t[p] == 43 {
        p = p + 1;
    }
    let ghost t2 = if t1.len() > 0 && t1[0] == 43 {
        t1.drop_first()
    } else {
        t1
    };
    proof {
        assert(t2 =~= t@.subrange(p as int, end as int));
    }

    // Nonempty run of digits, value at most 255.
    if p == end {
        return None;
    }
    let mut acc: u32 = 0;
    let mut i: usize = p;
    while i < end
        invariant
            p <= i <= end,
            p < end,
            end <= t@.len(),
            t2 == t@.subrange(p as int, end as int),
            parse_u8_token(t@) == (if t2.len() == 0 || !all_digits_b(t2) || int_of_digits(t2)
                > 255 {
                None::<u8>
            } else {
                Some(int_of_digits(t2) as u8)
            }),
            all_digits_b(t@.subrange(p as int, i as int)),
            acc == int_of_digits(t@.subrange(p as int, i as int)),
            acc <= 255,
        decreases end - i,
    {
        let b = t[i];
        if !(48 <= b && b <= 57) {
            proof {
                assert(t2[i - p] == t@[i as int]);
                assert(!all_digits_b(t2));
            }
            return None;
        }
        proof {
            assert(t@.subrange(p as int, i + 1).drop_last() =~= t@.subrange(p as int, i as int));
        }
        let next = acc * 10 + (b - 48) as u32;
        if next > 255 {
            proof {
                let part = t@.subrange(p as int, i + 1);
                assert(int_of_digits(part) == next);
                if all_digits_b(t2) {
                    lemma_digits_monotonic(t2, i + 1 - p);
                    assert(t2.take(i + 1 - p) =~= part);
                    assert(int_of_digits(t2) >= int_of_digits(part));
                    assert(int_of_digits(t2) > 255);
                }
            }
            return None;
        }
        acc = next;
        i = i + 1;
    }
    proof {
        assert(t@.subrange(p as int, end as int) =~= t2);
        assert(all_digits_b(t2));
        assert(int_of_digits(t2) == acc);
    }
    Some(acc as u8)
}

/// A longer all-digits sequence denotes at least as large a number as
/// its prefixes.
proof fn lemma_digits_monotonic(s: Seq<u8>, k: int)
    requires
        0 <= k <= s.len(),
        forall|i: int| 0 <= i < s.len() ==> is_digit_b(#[trigger] s[i]),
    ensures
        int_of_digits(s) >= int_of_digits(s.take(k)),
        int_of_digits(s.take(k)) >= 0,
    decreases s.len(),
{
    if s.len() == 0 {
        assert(s.take(k) =~= s);
    } else if k == s.len() {
        assert(s.take(k) =~= s);
        lemma_digits_monotonic(s.drop_last(), k - 1);
        assert(s.drop_last().take(k - 1) =~= s.drop_last());
    } else {
        lemma_digits_monotonic(s.drop_last(), k);
        assert(s.drop_last().take(k) =~= s.take(k));
        assert(int_of_digits(s) == int_of_digits(s.drop_last()) * 10 + (s.last() - 48));
    }
}

/// Exec mirror of `is_ws_b`.
fn is_ws_byte(b: u8) -> (r: bool)
    ensures
        r == is_ws_b(b),
{
    b == 32 || b == 9 || b == 10 || b == 13 || b == 11 || b == 12
}

/// True when a token is blank (nothing but whitespace).
fn token_blank(t: &[u8]) -> (r: bool)
    ensures
        r == (trim_b(t@).len() == 0),
{
    let mut i: usize = 0;
    while i < t.len()
        invariant
            i <= t@.len(),
            forall|j: int| 0 <= j < i ==> is_ws_b(#[trigger] t@[j]),
        decreases t@.len() - i,
    {
        if !is_ws_byte(t[i]) {
            proof {
                lemma_trim_start(t@, i as int);
                let sk = t@.skip(i as int);
                assert(trim_b(t@) == trim_end_b(sk));
                lemma_trim_end_len(sk);
            }
            return false;
        }
        i = i + 1;
    }
    proof {
        lemma_trim_start(t@, t@.len() as int);
        assert(t@.skip(t@.len() as int) =~= Seq::<u8>::empty());
    }
    true
}

/// Prepend already-parsed values to the outcome of parsing the rest.
pub open spec fn opt_concat(a: Seq<u8>, o: Option<Seq<u8>>) -> Option<Seq<u8>> {
    match o {
        Some(r) => Some(a + r),
        None => None,
    }
}

/// A clean validation walk certifies range and distinctness.
proof fn lemma_validate_clean(nums: Seq<u8>, i: int)
    requires
        0 <= i <= nums.len(),
        validate_nums(nums, i) == 0,
        nums.take(i).no_duplicates(),
        forall|k: int| 0 <= k < i ==> #[trigger] nums[k] < 52,
    ensures
        nums.no_duplicates(),
        forall|k: int| 0 <= k < nums.len() ==> #[trigger] nums[k] < 52,
    decreases nums.len() - i,
{
    if i == nums.len() {
        assert(nums.take(i) =~= nums);
    } else {
        assert(nums.take(i + 1).no_duplicates()) by {
            assert forall|a: int, b: int|
                #![trigger nums.take(i + 1)[a], nums.take(i + 1)[b]]
                0 <= a < i + 1 && 0 <= b < i + 1 && a != b implies nums.take(i + 1)[a] != nums.take(
                i + 1,
            )[b] by {
                if a < i && b < i {
                    assert(nums.take(i)[a] == nums.take(i + 1)[a]);
                    assert(nums.take(i)[b] == nums.take(i + 1)[b]);
                } else if b == i {
                    assert(!nums.take(i).contains(nums[i]));
                    assert(nums.take(i)[a] == nums.take(i + 1)[a]);
                } else {
                    assert(!nums.take(i).contains(nums[i]));
                    assert(nums.take(i)[b] == nums.take(i + 1)[b]);
                }
            }
        }
        lemma_validate_clean(nums, i + 1);
    }
}

/// Parse a bracketed integer list from raw bytes.
fn parse_deck_bytes(bytes: &[u8]) -> (r: Result<Vec<Card>, String>)
    ensures
        spec_parse_deck(bytes@) is Ok ==> r is Ok && r->Ok_0@.map_values(|c: Card| c.0)
            == spec_parse_deck(bytes@)->Ok_0,
        spec_parse_deck(bytes@) is Err ==> r is Err && r->Err_0@ == parse_err_msg(
            spec_parse_deck(bytes@)->Err_0,
        ),
        r is Ok ==> r->Ok_0@.len() == 52 && r->Ok_0@.no_duplicates() && forall|i: int|
            0 <= i < 52 ==> card_valid(#[trigger] r->Ok_0@[i]),
{
    let ghost bb = bytes@;

    let open = match find_byte_at(bytes, 91) {
        Some(i) => i,
        None => {
            return Err("missing '['".to_owned());
        },
    };
    let close = match rfind_byte_at(bytes, 93) {
        Some(j) => j,
        None => {
            return Err("missing ']'".to_owned());
        },
    };
    proof {
        lemma_find_byte(bb, 91);
        lemma_rfind_byte(bb, 93);
    }
    if close <= open {
        return Err("malformed [...] list".to_owned());
    }
    let inner = &bytes[open + 1..close];
    let ghost inner0 = inner@;
    proof {
        assert(inner0 =~= bb.subrange(open + 1, close as int));
    }

    let mut nums: Vec<u8> = Vec::new();
    let mut seg: usize = 0;
    proof {
        assert(inner0.skip(0) =~= inner0);
        let po = parse_tokens(inner0);
        if po is Some {
            assert(Seq::<u8>::empty() + po->Some_0 =~= po->Some_0);
        }
    }
    loop
        invariant_except_break
            seg <= inner0.len(),
            bb == bytes@,
            inner0 == inner@,
            inner0 == bb.subrange(open + 1, close as int),
            open == find_byte(bb, 91),
            close == rfind_byte(bb, 93),
            open < close < bb.len(),
            parse_tokens(inner0) == opt_concat(nums@, parse_tokens(inner0.skip(seg as int))),
        ensures
            parse_tokens(inner0) == Some(nums@),
            inner0 == bb.subrange(open + 1, close as int),
            open == find_byte(bb, 91),
            close == rfind_byte(bb, 93),
            open < close < bb.len(),
        decreases inner0.len() - seg,
    {
        let rest = &inner[seg..inner.len()];
        proof {
            assert(rest@ =~= inner0.skip(seg as int));
        }
        match find_byte_at(rest, 44) {
            Some(pp) => {
                proof {
                    lemma_find_byte(inner0.skip(seg as int), 44);
                }
                let token = &inner[seg..seg + pp];
                proof {
                    assert(token@ =~= inner0.skip(seg as int).take(pp as int));
                }
                if !token_blank(token) {
                    match token_u8(token) {
                        Some(v) => {
                            nums.push(v);
                        },
                        None => {
                            proof {
                                assert(parse_tokens(inner0.skip(seg as int)) is None);
                            }
                            return Err("could not parse a deck entry as u8".to_owned());
                        },
                    }
                }
                proof {
                    assert(inner0.skip(seg as int).skip(pp + 1) =~= inner0.skip(
                        seg + pp + 1,
                    ));
                    assert(parse_tokens(inner0) == opt_concat(
                        nums@,
                        parse_tokens(inner0.skip(seg + pp + 1)),
                    ));
                }
                seg = seg + pp + 1;
            },
            None => {
                let token = rest;
                if !token_blank(token) {
                    match token_u8(token) {
                        Some(v) => {
                            nums.push(v);
                        },
                        None => {
                            proof {
                                assert(parse_tokens(inner0.skip(seg as int)) is None);
                            }
                            return Err("could not parse a deck entry as u8".to_owned());
                        },
                    }
                }
                proof {
                    assert(parse_tokens(inner0) == Some(nums@));
                }
                break;
            },
        }
    }

    if nums.len() != 52 {
        return Err("deck list must have exactly 52 numbers".to_owned());
    }

    // Validate range and distinctness, in walking order.
    let mut seen: Vec<bool> = Vec::new();
    let mut v: usize = 0;
    while v < 52
        invariant
            v <= 52,
            seen@.len() == v,
            forall|k: int| 0 <= k < v ==> !(#[trigger] seen@[k]),
        decreases 52 - v,
    {
        seen.push(false);
        v = v + 1;
    }
    let mut k: usize = 0;
    while k < 52
        invariant
            k <= 52,
            bb == bytes@,
            open == find_byte(bb, 91),
            close == rfind_byte(bb, 93),
            open < close < bb.len(),
            inner0 == bb.subrange(open + 1, close as int),
            parse_tokens(inner0) == Some(nums@),
            nums@.len() == 52,
            seen@.len() == 52,
            validate_nums(nums@, 0) == validate_nums(nums@, k as int),
            nums@.take(k as int).no_duplicates(),
            forall|j: int| 0 <= j < k ==> #[trigger] nums@[j] < 52,
            forall|w: int|
                0 <= w < 52 ==> #[trigger] seen@[w] == nums@.take(k as int).contains(w as u8),
        decreases 52 - k,
    {
        let x = nums[k];
        if x >= 52 {
            proof {
                assert(validate_nums(nums@, k as int) == 5);
            }
            return Err("card index out of range 0..=51".to_owned());
        }
        if seen[x as usize] {
            proof {
                assert(nums@.take(k as int).contains(nums@[k as int]));
                assert(validate_nums(nums@, k as int) == 6);
            }
            return Err("duplicate card index".to_owned());
        }
        seen[x as usize] = true;
        proof {
            assert(!nums@.take(k as int).contains(nums@[k as int]));
            assert(nums@.take(k + 1).no_duplicates()) by {
                assert forall|a: int, b: int|
                    #![trigger nums@.take(k + 1)[a], nums@.take(k + 1)[b]]
                    0 <= a < k + 1 && 0 <= b < k + 1 && a != b implies nums@.take(k + 1)[a]
                    != nums@.take(k + 1)[b] by {
                    assert(nums@.take(k + 1)[a] == nums@[a] && nums@.take(k + 1)[b] == nums@[b]);
                    if a < k && b < k {
                        assert(nums@.take(k as int)[a] != nums@.take(k as int)[b]);
                    } else if b == k as int {
                        assert(nums@.take(k as int)[a] == nums@[a]);
                    } else {
                        assert(nums@.take(k as int)[b] == nums@[b]);
                    }
                }
            }
            assert(nums@.take(k + 1)[k as int] == x);
            assert(nums@.take(k + 1).contains(x));
            assert forall|w: int| 0 <= w < 52 implies #[trigger] seen@[w] == nums@.take(
                k + 1,
            ).contains(w as u8) by {
                if nums@.take(k + 1).contains(w as u8) {
                    let j = choose|j: int| 0 <= j < k + 1 && (#[trigger] nums@.take(k + 1)[j]) == w as u8;
                    if j < k {
                        assert(nums@.take(k as int).contains(w as u8)) by {
                            assert(nums@.take(k as int)[j] == w as u8);
                        }
                    }
                } else {
                    assert(!nums@.take(k as int).contains(w as u8)) by {
                        if nums@.take(k as int).contains(w as u8) {
                            let j = choose|j: int|
                                0 <= j < k && (#[trigger] nums@.take(k as int)[j]) == w as u8;
                            assert(nums@.take(k + 1)[j] == w as u8);
                        }
                    }
                }
            }
        }
        k = k + 1;
    }
    proof {
        assert(nums@.take(52int) =~= nums@);
        lemma_validate_clean(nums@, 52);
    }

    let mut deck: Vec<Card> = Vec::new();
    let mut i: usize = 0;
    while i < 52
        invariant
            i <= 52,
            nums@.len() == 52,
            deck@.len() == i,
            forall|j: int| 0 <= j < i ==> #[trigger] deck@[j] == Card(nums@[j]),
        decreases 52 - i,
    {
        deck.push(Card(nums[i]));
        i = i + 1;
    }
    proof {
        assert(deck@.map_values(|c: Card| c.0) =~= nums@);
        assert(deck@.no_duplicates()) by {
            assert forall|a: int, b: int|
                0 <= a < 52 && 0 <= b < 52 && a != b implies deck@[a] != deck@[b] by {
                assert(deck@[a] == Card(nums@[a]) && deck@[b] == Card(nums@[b]));
            }
        }
    }
    Ok(deck)
}

/// A trimmed-from-the-end sequence is empty only if the original was
/// all whitespace from the front.
proof fn lemma_trim_end_len(s: Seq<u8>)
    requires
        s.len() > 0,
        !is_ws_b(s[0]),
    ensures
        trim_end_b(s).len() > 0,
    decreases s.len(),
{
    if is_ws_b(s.last()) {
        lemma_trim_end_len(s.drop_last());
    }
}

/// Parse a single bracketed integer list (e.g. `[1, 2, 3]`) into a
/// deck. The list must contain exactly 52 integers in `0..52` with no
/// duplicates; the contract pins both the accepted decks and the
/// error reported for every rejected input, as functions of the
/// string's UTF-8 bytes.
pub fn parse_bracketed_deck_list(s: &str) -> (r: Result<Vec<Card>, String>)
    ensures
        spec_parse_deck(s.spec_bytes()) is Ok ==> r is Ok && r->Ok_0@.map_values(|c: Card| c.0)
            == spec_parse_deck(s.spec_bytes())->Ok_0,
        spec_parse_deck(s.spec_bytes()) is Err ==> r is Err && r->Err_0@ == parse_err_msg(
            spec_parse_deck(s.spec_bytes())->Err_0,
        ),
        r is Ok ==> r->Ok_0@.len() == 52 && r->Ok_0@.no_duplicates() && forall|i: int|
            0 <= i < 52 ==> card_valid(#[trigger] r->Ok_0@[i]),
{
    parse_deck_bytes(s.as_bytes())
}

/// Lower-cased ASCII byte.
pub open spec fn lower_b(b: u8) -> u8 {
    if 65 <= b <= 90 {
        (b + 32) as u8
    } else {
        b
    }
}

/// A byte a deck list may contain: digits, commas, whitespace and
/// brackets.
pub open spec fn is_deck_char_b(b: u8) -> bool {
    is_digit_b(b) || b == 44 || is_ws_b(b) || b == 91 || b == 93
}

/// True when the text consists only of deck-list characters.
pub fn is_deck_chars_only(s: &str) -> (r: bool)
    ensures
        r == forall|i: int| 0 <= i < s.spec_bytes().len() ==> is_deck_char_b(
            #[trigger] s.spec_bytes()[i],
        ),
{
    deck_chars_only_bytes(s.as_bytes())
}

/// Byte-level core of `is_deck_chars_only`.
fn deck_chars_only_bytes(b: &[u8]) -> (r: bool)
    ensures
        r == forall|i: int| 0 <= i < b@.len() ==> is_deck_char_b(#[trigger] b@[i]),
{
    let mut i: usize = 0;
    while i < b.len()
        invariant
            i <= b@.len(),
            forall|k: int| 0 <= k < i ==> is_deck_char_b(#[trigger] b@[k]),
        decreases b@.len() - i,
    {
        let x = b[i];
        if !(48 <= x && x <= 57 || x == 44 || x == 32 || x == 9 || x == 10 || x == 13 || x == 11
            || x == 12 || x == 91 || x == 93) {
            return false;
        }
        i = i + 1;
    }
    true
}

/// True when the lower-cased bytes at `i` spell out `pat`.
pub open spec fn match_at(b: Seq<u8>, i: int, pat: Seq<u8>) -> bool {
    &&& 0 <= i
    &&& i + pat.len() <= b.len()
    &&& forall|j: int| 0 <= j < pat.len() ==> lower_b(b[i + j]) == pat[j]
}

/// First ASCII digit at or after position `i`, or -1.
pub open spec fn find_digit_from(b: Seq<u8>, i: int) -> int
    decreases b.len() - i,
{
    if i < 0 || i >= b.len() {
        -1
    } else if is_digit_b(b[i]) {
        i
    } else {
        find_digit_from(b, i + 1)
    }
}

/// End (exclusive) of the digit run starting at `i`.
pub open spec fn digit_run_end(b: Seq<u8>, i: int) -> int
    decreases b.len() - i,
{
    if 0 <= i < b.len() && is_digit_b(b[i]) {
        digit_run_end(b, i + 1)
    } else {
        i
    }
}

/// Exec mirror of `find_digit_from`.
fn find_digit_at(b: &[u8], from: usize) -> (r: Option<usize>)
    requires
        from <= b@.len(),
    ensures
        r is None ==> find_digit_from(b@, from as int) == -1,
        r is Some ==> r.unwrap() == find_digit_from(b@, from as int) && from <= r.unwrap()
            < b@.len(),
{
    let mut i: usize = from;
    while i < b.len()
        invariant
            from <= i <= b@.len(),
            find_digit_from(b@, from as int) == find_digit_from(b@, i as int),
        decreases b@.len() - i,
    {
        if 48 <= b[i] && b[i] <= 57 {
            return Some(i);
        }
        i = i + 1;
    }
    None
}

/// Exec mirror of `digit_run_end`.
fn digit_run_end_at(b: &[u8], from: usize) -> (r: usize)
    requires
        from <= b@.len(),
    ensures
        r == digit_run_end(b@, from as int),
        from <= r <= b@.len(),
{
    let mut i: usize = from;
    while i < b.len() && 48 <= b[i] && b[i] <= 57
        invariant
            from <= i <= b@.len(),
            digit_run_end(b@, from as int) == digit_run_end(b@, i as int),
        decreases b@.len() - i,
    {
        i = i + 1;
    }
    i
}

/// Does the lower-cased window at `i` match the 4-byte pattern?
fn match_pat4(b: &[u8], i: usize, p0: u8, p1: u8, p2: u8, p3: u8) -> (r: bool)
    requires
        i + 4 <= b@.len(),
    ensures
        r == match_at(b@, i as int, seq![p0, p1, p2, p3]),
{
    let m = lower_byte(b[i]) == p0 && lower_byte(b[i + 1]) == p1 && lower_byte(b[i + 2]) == p2
        && lower_byte(b[i + 3]) == p3;
    proof {
        let pat = seq![p0, p1, p2, p3];
        if m {
            assert forall|j: int| 0 <= j < pat.len() implies lower_b(b@[i + j]) == pat[j] by {
                assert(pat[0] == p0 && pat[1] == p1 && pat[2] == p2 && pat[3] == p3);
            }
        }
    }
    m
}

/// Exec mirror of `lower_b`.
fn lower_byte(b: u8) -> (r: u8)
    ensures
        r == lower_b(b),
{
    if 65 <= b && b <= 90 {
        b + 32
    } else {
        b
    }
}

/// Last position where one of the label keywords starts, or -1.
pub open spec fn last_keyword_pos(b: Seq<u8>, i: int) -> int
    decreases i + 1,
{
    if i < 0 {
        -1
    } else if match_at(b, i, "game"@.map_values(|c: char| c as u8)) || match_at(
        b,
        i,
        "seed"@.map_values(|c: char| c as u8),
    ) {
        i
    } else {
        last_keyword_pos(b, i - 1)
    }
}

/// Try to derive a numeric label from nearby text: the digit run that
/// follows the last occurrence of a label keyword (`game` or `seed`,
/// any letter case). The result is exactly that digit run.
fn sniff_label_bytes(b: &[u8]) -> (r: Option<String>)
    ensures
        ({
            let p = last_keyword_pos(b@, b@.len() - 4);
            let ds = if p == -1 {
                -1
            } else {
                find_digit_from(b@, p)
            };
            &&& (r is Some <==> p != -1 && ds != -1)
            &&& r is Some ==> r.unwrap()@ == b@.subrange(ds, digit_run_end(b@, ds)).map_values(
                |x: u8| x as char,
            )
        }),
{
    proof {
        reveal_strlit("game");
        reveal_strlit("seed");
    }
    if b.len() < 4 {
        return None;
    }
    let mut i: usize = b.len() - 3;
    let mut best: Option<usize> = None;
    while i > 0 && best.is_none()
        invariant
            i <= b@.len() - 3,
            b@.len() >= 4,
            "game"@.map_values(|c: char| c as u8) =~= seq![103u8, 97, 109, 101],
            "seed"@.map_values(|c: char| c as u8) =~= seq![115u8, 101, 101, 100],
            best is None ==> last_keyword_pos(b@, b@.len() - 4) == last_keyword_pos(
                b@,
                i as int - 1,
            ),
            best is Some ==> best.unwrap() == last_keyword_pos(b@, b@.len() - 4)
                && best.unwrap() + 4 <= b@.len(),
        decreases i,
    {
        i = i - 1;
        if match_pat4(b, i, 103, 97, 109, 101) || match_pat4(b, i, 115, 101, 101, 100) {
            best = Some(i);
        }
    }
    match best {
        None => {
            proof {
                assert(last_keyword_pos(b@, -1) == -1);
            }
            None
        },
        Some(p) => {
            match find_digit_at(b, p) {
                None => None,
                Some(ds) => {
                    let de = digit_run_end_at(b, ds);
                    let mut label = String::new();
                    let mut k: usize = ds;
                    while k < de
                        invariant
                            ds <= k <= de,
                            de <= b@.len(),
                            label@ == b@.subrange(ds as int, k as int).map_values(
                                |x: u8| x as char,
                            ),
                        decreases de - k,
                    {
                        crate::text::push_char(&mut label, b[k] as char);
                        proof {
                            assert(b@.subrange(ds as int, k + 1).map_values(|x: u8| x as char)
                                =~= b@.subrange(ds as int, k as int).map_values(
                                |x: u8| x as char,
                            ).push(b@[k as int] as char));
                        }
                        k = k + 1;
                    }
                    Some(label)
                },
            }
        },
    }
}

/// Every deck this function returns was parsed, by the exact
/// bracketed-list grammar, from a bracket-delimited stretch of the
/// input consisting only of deck-list characters.
pub open spec fn extracted_deck_ok(text: Seq<u8>, deck: Seq<Card>) -> bool {
    exists|i: int, j: int|
        0 <= i <= j <= text.len() && spec_parse_deck(#[trigger] text.subrange(i, j)) == Ok::<
            Seq<u8>,
            int,
        >(deck.map_values(|c: Card| c.0))
}

/// Extract all bracketed deck lists from arbitrary text (for example
/// the full output of a dump tool, or a file holding just the lists).
/// Every returned deck is a 52-card permutation parsed from a
/// bracketed stretch of the text; labels are sniffed from the nearby
/// text or numbered from the given default label.
pub fn extract_decks_from_text(text: &str, default_label: &str) -> (r: Vec<DeckSpec>)
    ensures
        forall|k: int|
            0 <= k < r@.len() ==> {
                &&& (#[trigger] r@[k]).deck@.len() == 52
                &&& r@[k].deck@.no_duplicates()
                &&& (forall|c: int| 0 <= c < 52 ==> card_valid(#[trigger] r@[k].deck@[c]))
                &&& extracted_deck_ok(text.spec_bytes(), r@[k].deck@)
            },
{
    let bytes = text.as_bytes();
    let ghost tb = text.spec_bytes();
    let mut out: Vec<DeckSpec> = Vec::new();
    let mut deck_index: u64 = 0;
    let mut i: usize = 0;
    while i < bytes.len()
        invariant
            tb == bytes@,
            forall|k: int|
                0 <= k < out@.len() ==> {
                    &&& (#[trigger] out@[k]).deck@.len() == 52
                    &&& out@[k].deck@.no_duplicates()
                    &&& (forall|c: int| 0 <= c < 52 ==> card_valid(#[trigger] out@[k].deck@[c]))
                    &&& extracted_deck_ok(tb, out@[k].deck@)
                },
        decreases bytes@.len() - i,
    {
        if bytes[i] != 91 {
            i = i + 1;
        } else {
            // Find the next closing bracket.
            let mut j: usize = i + 1;
            while j < bytes.len() && bytes[j] != 93
                invariant
                    i < j <= bytes@.len(),
                decreases bytes@.len() - j,
            {
                j = j + 1;
            }
            if j >= bytes.len() {
                break;
            }
            let candidate = &bytes[i..j + 1];
            if deck_chars_only_bytes(candidate) {
                match parse_deck_bytes(candidate) {
                    Ok(deck) => {
                        // Look back a little for a label.
                        let lookback_start = if i >= 512 {
                            i - 512
                        } else {
                            0
                        };
                        let nearby = &bytes[lookback_start..i];
                        let label = match sniff_label_bytes(nearby) {
                            Some(l) => l,
                            None => {
                                if deck_index < u64::MAX {
                                    deck_index = deck_index + 1;
                                }
                                let mut l = default_label.to_owned();
                                crate::text::push_char(&mut l, '#');
                                crate::text::push_u64_decimal(&mut l, deck_index);
                                l
                            },
                        };
                        proof {
                            assert(candidate@ =~= tb.subrange(i as int, j + 1));
                            assert(extracted_deck_ok(tb, deck@));
                        }
                        out.push(DeckSpec { label, deck });
                    },
                    Err(_) => {},
                }
            }
            i = j + 1;
        }
    }
    out
}

// --- Reproducing the originating application's shuffles from seeds ---

// The application's suit order is clubs, spades, hearts, diamonds;
// this crate's is hearts, clubs, spades, diamonds.
/// This crate's suit index for the application's suit index.
pub open spec fn pysol_suit_map(s: int) -> int {
    if s == 0 {
        1
    } else if s == 1 {
        2
    } else if s == 2 {
        0
    } else {
        3
    }
}

/// Translate an imported (suit, rank) pair into this crate's card
/// index.
fn pysol_card_to_rust_index(pysol_suit: u8, rank_0_12: u8) -> (r: u8)
    requires
        pysol_suit < 4,
        rank_0_12 < 13,
    ensures
        r == pysol_suit_map(pysol_suit as int) * 13 + rank_0_12,
        r < 52,
{
    let m: u8 = if pysol_suit == 0 {
        1
    } else if pysol_suit == 1 {
        2
    } else if pysol_suit == 2 {
        0
    } else {
        3
    };
    m * 13 + rank_0_12
}

/// Largest seed the 31-bit generator accepts.
pub const LC_MAX_SEED: u64 = 0x1_FFFF_FFFF;

/// One step of the 31-bit linear-congruential generator.
pub open spec fn lc_step(x: u64) -> u64 {
    ((x * 214013 + 2531011) % 0x2_0000_0000) as u64
}

/// The value one `random()` call of the 31-bit generator yields, as a
/// function of the generator's fields.
pub open spec fn lc_random_val(seed: u64, seedx: u64) -> u32 {
    if seed < 0x1_0000_0000 {
        let r = ((lc_step(seedx) >> 16) & 0x7fff) as u32;
        if seed < 0x8000_0000 {
            r
        } else {
            (r | 0x8000) as u32
        }
    } else {
        (((lc_step(seedx) >> 16) & 0xffff) + 1) as u32
    }
}

/// The 31-bit linear-congruential generator behind `ms` seeds and
/// small numeric seeds.
pub struct LCRandom31 {
    pub seed: u64,
    pub seedx: u64,
}

/// The generator's state stays within its 33-bit mask.
pub open spec fn lc_wf(r: LCRandom31) -> bool {
    r.seedx <= LC_MAX_SEED
}

impl LCRandom31 {
    /// Create a generator; seeds outside `1..=2^33 - 1` are rejected.
    pub fn new(seed: u64) -> (r: Result<LCRandom31, String>)
        ensures
            (1 <= seed <= LC_MAX_SEED) <==> r is Ok,
            r is Ok ==> {
                &&& r->Ok_0.seed == seed
                &&& r->Ok_0.seedx == (if seed < 0x1_0000_0000 {
                    seed as int
                } else {
                    seed - 0x1_0000_0000
                })
                &&& lc_wf(r->Ok_0)
            },
            r is Err ==> r->Err_0@ == "ms seed out of range"@,
    {
        if seed < 1 || seed > LC_MAX_SEED {
            return Err("ms seed out of range".to_owned());
        }
        let seedx = if seed < 0x1_0000_0000 {
            seed
        } else {
            seed - 0x1_0000_0000
        };
        Ok(LCRandom31 { seed, seedx })
    }

    /// Advance the internal state one step.
    pub fn rand_step(&mut self)
        requires
            lc_wf(*old(self)),
        ensures
            final(self).seed == old(self).seed,
            final(self).seedx == lc_step(old(self).seedx),
            lc_wf(*final(self)),
    {
        proof {
            lemma_mask33(self.seedx * 214013 + 2531011);
        }
        self.seedx = (self.seedx * 214013 + 2531011) & LC_MAX_SEED;
    }

    /// A 15-bit draw.
    pub fn rand_15(&mut self) -> (r: u16)
        requires
            lc_wf(*old(self)),
        ensures
            final(self).seed == old(self).seed,
            final(self).seedx == lc_step(old(self).seedx),
            lc_wf(*final(self)),
            r == ((lc_step(old(self).seedx) >> 16) & 0x7fff) as u16,
    {
        self.rand_step();
        ((self.seedx >> 16) & 0x7fff) as u16
    }

    /// A 16-bit draw.
    pub fn rand_16(&mut self) -> (r: u16)
        requires
            lc_wf(*old(self)),
        ensures
            final(self).seed == old(self).seed,
            final(self).seedx == lc_step(old(self).seedx),
            lc_wf(*final(self)),
            r == ((lc_step(old(self).seedx) >> 16) & 0xffff) as u16,
    {
        self.rand_step();
        ((self.seedx >> 16) & 0xffff) as u16
    }

    /// The generator's `random()` call: a 15- or 16-bit value whose
    /// width and bias depend on the seed's magnitude.
    pub fn random_u16ish(&mut self) -> (r: u32)
        requires
            lc_wf(*old(self)),
        ensures
            final(self).seed == old(self).seed,
            final(self).seedx == lc_step(old(self).seedx),
            lc_wf(*final(self)),
            r == lc_random_val(old(self).seed, old(self).seedx),
    {
        proof {
            let y = lc_step(self.seedx);
            assert((y >> 16) & 0x7fff < 0x8000 && (y >> 16) & 0xffff < 0x10000) by (bit_vector);
        }
        if self.seed < 0x1_0000_0000 {
            let r = self.rand_15() as u32;
            if self.seed < 0x8000_0000 {
                r
            } else {
                r | 0x8000
            }
        } else {
            (self.rand_16() as u32) + 1
        }
    }

    /// A draw in `a..=b`, reduced from `random()` by remainder.
    pub fn randint_inclusive(&mut self, a: usize, b: usize) -> (r: usize)
        requires
            lc_wf(*old(self)),
            a <= b,
            b < usize::MAX,
        ensures
            final(self).seed == old(self).seed,
            lc_wf(*final(self)),
            a <= r <= b,
            r == lc_randint_val(old(self).seed, old(self).seedx, a as int, b as int),
            final(self).seedx == (if a == b {
                old(self).seedx as int
            } else {
                lc_step(old(self).seedx) as int
            }),
    {
        let span = b + 1 - a;
        if span <= 1 {
            return a;
        }
        let r = self.random_u16ish() as usize;
        a + (r % span)
    }
}

/// The value `randint_inclusive` returns, as a function of the
/// generator state and the bounds.
pub open spec fn lc_randint_val(seed: u64, seedx: u64, a: int, b: int) -> int {
    if b <= a {
        a
    } else {
        a + (lc_random_val(seed, seedx) as int) % (b + 1 - a)
    }
}

/// Masking with the 33-bit mask is remainder modulo 2^33.
proof fn lemma_mask33(y: int)
    requires
        0 <= y < 0x8000_0000_0000_0000,
    ensures
        (y as u64) & 0x1_FFFF_FFFFu64 == y % 0x2_0000_0000,
{
    let yu = y as u64;
    assert(yu & 0x1_FFFF_FFFFu64 == yu % 0x2_0000_0000u64) by (bit_vector);
}

/// The swap-down shuffle both generators drive: positions from the
/// top down, each swapped with a drawn position at or below it.
/// One step of it, on the 31-bit generator.
pub open spec fn lc_shuffle_step(st: (Seq<u8>, u64, u64), n: int) -> (Seq<u8>, u64, u64) {
    let (v, seed, seedx) = st;
    let j = lc_randint_val(seed, seedx, 0, n);
    let v2 = v.update(n, v[j]).update(j, v[n]);
    let x2 = if n == 0 {
        seedx
    } else {
        lc_step(seedx)
    };
    (v2, seed, x2)
}

/// The shuffle's state after handling positions `len-1` down to `n+1`.
pub open spec fn lc_shuffle_from(st: (Seq<u8>, u64, u64), n: int) -> (Seq<u8>, u64, u64)
    decreases st.0.len() - n,
{
    if n < 0 || n + 1 >= st.0.len() {
        st
    } else {
        lc_shuffle_step(lc_shuffle_from(st, n + 1), n + 1)
    }
}

/// Shuffle in place with the 31-bit generator, exactly as the spec
/// fold describes; the multiset of entries is preserved.
pub fn shuffle_lc(rng: &mut LCRandom31, v: &mut Vec<u8>)
    requires
        lc_wf(*old(rng)),
        old(v)@.len() >= 1,
    ensures
        lc_wf(*final(rng)),
        final(rng).seed == old(rng).seed,
        (final(v)@, final(rng).seed, final(rng).seedx) == lc_shuffle_from(
            (old(v)@, old(rng).seed, old(rng).seedx),
            0,
        ),
        final(v)@.to_multiset() == old(v)@.to_multiset(),
        final(v)@.len() == old(v)@.len(),
{
    let ghost st0 = (v@, rng.seed, rng.seedx);
    let mut n: usize = v.len() - 1;
    while n >= 1
        invariant
            n <= st0.0.len() - 1,
            n < usize::MAX,
            st0.0.len() >= 1,
            lc_wf(*rng),
            rng.seed == st0.1,
            (v@, rng.seed, rng.seedx) == lc_shuffle_from(st0, n as int),
            v@.to_multiset() == st0.0.to_multiset(),
            v@.len() == st0.0.len(),
        decreases n,
    {
        let ghost before = (v@, rng.seed, rng.seedx);
        let j = rng.randint_inclusive(0, n);
        let vn = v[n];
        let vj = v[j];
        v[n] = vj;
        v[j] = vn;
        proof {
            assert((v@, rng.seed, rng.seedx) == lc_shuffle_step(before, n as int)) by {
                assert(v@ =~= before.0.update(n as int, before.0[j as int]).update(
                    j as int,
                    before.0[n as int],
                ));
            }
            assert(lc_shuffle_from(st0, n - 1) == lc_shuffle_step(
                lc_shuffle_from(st0, n as int),
                n as int,
            ));
            if j < n {
                assert(v@ =~= before.0.update(j as int, before.0[n as int]).update(
                    n as int,
                    before.0[j as int],
                ));
                crate::card::lemma_swap_multiset(before.0, j as int, n as int);
            } else {
                assert(v@ =~= before.0);
            }
        }
        n = n - 1;
    }
}

// --- The Mersenne Twister driving large numeric seeds ---

/// The `i`-th state word produced by scalar initialization.
pub open spec fn genrand_at(s: u32, i: int) -> u32
    decreases i,
{
    if i <= 0 {
        s
    } else {
        let prev = genrand_at(s, i - 1);
        vstd::wrapping::u32_specs::wrapping_add(
            vstd::wrapping::u32_specs::wrapping_mul(1812433253, prev ^ (prev >> 30)),
            i as u32,
        )
    }
}

/// One step of the first key-mixing phase: state is (words, i, j).
pub open spec fn iba1_step(st: (Seq<u32>, int, int), key: Seq<u32>) -> (Seq<u32>, int, int) {
    let (mt, i, j) = st;
    let prev = mt[i - 1];
    let x = prev ^ (prev >> 30);
    let v = vstd::wrapping::u32_specs::wrapping_add(
        vstd::wrapping::u32_specs::wrapping_add(
            mt[i] ^ vstd::wrapping::u32_specs::wrapping_mul(1664525, x),
            key[j],
        ),
        j as u32,
    );
    let mt2 = mt.update(i, v);
    let (mt3, i2): (Seq<u32>, int) = if i + 1 >= 624 {
        (mt2.update(0, mt2[623]), 1)
    } else {
        (mt2, i + 1)
    };
    let j2: int = if j + 1 >= key.len() {
        0
    } else {
        j + 1
    };
    (mt3, i2, j2)
}

/// The first phase after `k` steps.
pub open spec fn iba1_steps(st: (Seq<u32>, int, int), key: Seq<u32>, k: int) -> (
    Seq<u32>,
    int,
    int,
)
    decreases k,
{
    if k <= 0 {
        st
    } else {
        iba1_step(iba1_steps(st, key, k - 1), key)
    }
}

/// One step of the second mixing phase: state is (words, i).
pub open spec fn iba2_step(st: (Seq<u32>, int)) -> (Seq<u32>, int) {
    let (mt, i) = st;
    let prev = mt[i - 1];
    let x = prev ^ (prev >> 30);
    let v = vstd::wrapping::u32_specs::wrapping_sub(
        mt[i] ^ vstd::wrapping::u32_specs::wrapping_mul(1566083941, x),
        i as u32,
    );
    let mt2 = mt.update(i, v);
    if i + 1 >= 624 {
        (mt2.update(0, mt2[623]), 1)
    } else {
        (mt2, i + 1)
    }
}

/// The second phase after `k` steps.
pub open spec fn iba2_steps(st: (Seq<u32>, int), k: int) -> (Seq<u32>, int)
    decreases k,
{
    if k <= 0 {
        st
    } else {
        iba2_step(iba2_steps(st, k - 1))
    }
}

/// The full state the array-keyed initialization produces.
pub open spec fn spec_init_by_array(key: Seq<u32>) -> Seq<u32> {
    let mt0 = Seq::new(624, |i: int| genrand_at(19650218u32, i));
    let kmax: int = if key.len() > 624 {
        key.len() as int
    } else {
        624
    };
    let st1 = iba1_steps((mt0, 1, 0), key, kmax);
    let st2 = iba2_steps((st1.0, st1.1), 623);
    st2.0.update(0, 0x8000_0000u32)
}

/// One step of the state twist.
pub open spec fn twist_step(mt: Seq<u32>, i: int) -> Seq<u32> {
    let x = (mt[i] & 0x8000_0000) | (mt[(i + 1) % 624] & 0x7fff_ffff);
    let xa = if x & 1 != 0 {
        (x >> 1) ^ 0x9908_b0df
    } else {
        x >> 1
    };
    mt.update(i, mt[(i + 397) % 624] ^ xa)
}

/// The twist applied to the first `k` words.
pub open spec fn twist_upto(mt: Seq<u32>, k: int) -> Seq<u32>
    decreases k,
{
    if k <= 0 {
        mt
    } else {
        twist_step(twist_upto(mt, k - 1), k - 1)
    }
}

/// The full state twist.
pub open spec fn spec_twist(mt: Seq<u32>) -> Seq<u32> {
    twist_upto(mt, 624)
}

/// The output tempering applied to one extracted word.
pub open spec fn temper(y0: u32) -> u32 {
    let y1 = y0 ^ (y0 >> 11);
    let y2 = y1 ^ ((y1 << 7) & 0x9d2c_5680);
    let y3 = y2 ^ ((y2 << 15) & 0xefc6_0000);
    y3 ^ (y3 >> 18)
}

/// One word drawn from the generator: the (possibly twisted) state
/// and the next index, with the extracted word tempered.
pub open spec fn spec_gen_u32(mt: Seq<u32>, index: int) -> (u32, Seq<u32>, int) {
    if index >= 624 {
        let t = spec_twist(mt);
        (temper(t[0]), t, 1)
    } else {
        (temper(mt[index]), mt, index + 1)
    }
}

/// The Mersenne Twister state: 624 words and a read index.
pub struct MTRandom {
    pub mt: Vec<u32>,
    pub index: usize,
}

/// Structural invariant of the generator.
pub open spec fn mt_wf(m: MTRandom) -> bool {
    m.mt@.len() == 624 && m.index <= 624
}

impl MTRandom {
    /// Initialize the state from a single scalar seed.
    pub fn init_genrand(&mut self, s: u32)
        requires
            mt_wf(*old(self)),
        ensures
            mt_wf(*final(self)),
            final(self).mt@ == Seq::new(624, |i: int| genrand_at(s, i)),
            final(self).index == 624,
    {
        self.mt[0] = s;
        let mut i: usize = 1;
        while i < 624
            invariant
                1 <= i <= 624,
                self.mt@.len() == 624,
                forall|k: int| 0 <= k < i ==> #[trigger] self.mt@[k] == genrand_at(s, k),
            decreases 624 - i,
        {
            let prev = self.mt[i - 1];
            self.mt[i] = 1812433253u32.wrapping_mul(prev ^ (prev >> 30)).wrapping_add(i as u32);
            i = i + 1;
        }
        self.index = 624;
        proof {
            assert(self.mt@ =~= Seq::new(624, |k: int| genrand_at(s, k)));
        }
    }

    /// Initialize the state from an array of key words, exactly as the
    /// two-phase mixing fold describes.
    pub fn init_by_array(&mut self, key: &Vec<u32>)
        requires
            mt_wf(*old(self)),
            key@.len() >= 1,
            key@.len() <= 0xFFFF_FFFF,
        ensures
            mt_wf(*final(self)),
            final(self).mt@ == spec_init_by_array(key@),
            final(self).index == 624,
    {
        self.init_genrand(19650218);
        let ghost mt0 = self.mt@;
        let mut i: usize = 1;
        let mut j: usize = 0;
        let key_len = key.len();
        let mut k: usize = if 624 > key_len {
            624
        } else {
            key_len
        };
        let ghost kmax = k as int;
        while k > 0
            invariant
                mt_wf(*self),
                key@.len() == key_len,
                1 <= key_len <= 0xFFFF_FFFF,
                k <= kmax,
                1 <= i < 624,
                j < key_len,
                (self.mt@, i as int, j as int) == iba1_steps((mt0, 1, 0), key@, kmax - k),
            decreases k,
        {
            let ghost st_before = (self.mt@, i as int, j as int);
            let prev = self.mt[i - 1];
            let x = prev ^ (prev >> 30);
            let mul = 1664525u32.wrapping_mul(x);
            self.mt[i] = (self.mt[i] ^ mul).wrapping_add(key[j]).wrapping_add(j as u32);
            i = i + 1;
            j = j + 1;
            if i >= 624 {
                self.mt[0] = self.mt[623];
                i = 1;
            }
            if j >= key_len {
                j = 0;
            }
            proof {
                assert((self.mt@, i as int, j as int) == iba1_step(st_before, key@));
                assert(iba1_steps((mt0, 1, 0), key@, kmax - k + 1) == iba1_step(
                    iba1_steps((mt0, 1, 0), key@, kmax - k),
                    key@,
                ));
            }
            k = k - 1;
        }

        let ghost st1 = (self.mt@, i as int);
        let mut k: usize = 623;
        while k > 0
            invariant
                mt_wf(*self),
                k <= 623,
                1 <= i < 624,
                (self.mt@, i as int) == iba2_steps(st1, 623 - k),
            decreases k,
        {
            let ghost st_before = (self.mt@, i as int);
            let prev = self.mt[i - 1];
            let x = prev ^ (prev >> 30);
            let mul = 1566083941u32.wrapping_mul(x);
            self.mt[i] = (self.mt[i] ^ mul).wrapping_sub(i as u32);
            i = i + 1;
            if i >= 624 {
                self.mt[0] = self.mt[623];
                i = 1;
            }
            proof {
                assert((self.mt@, i as int) == iba2_step(st_before));
                assert(iba2_steps(st1, 623 - k + 1) == iba2_step(iba2_steps(st1, 623 - k)));
            }
            k = k - 1;
        }

        self.mt[0] = 0x8000_0000;
        self.index = 624;
    }

    /// Twist the whole state in place.
    pub fn twist(&mut self)
        requires
            mt_wf(*old(self)),
        ensures
            mt_wf(*final(self)),
            final(self).mt@ == spec_twist(old(self).mt@),
            final(self).index == 0,
    {
        let ghost mt0 = self.mt@;
        let mut i: usize = 0;
        while i < 624
            invariant
                i <= 624,
                self.mt@.len() == 624,
                self.mt@ == twist_upto(mt0, i as int),
            decreases 624 - i,
        {
            let ghost before = self.mt@;
            let x = (self.mt[i] & 0x8000_0000) | (self.mt[(i + 1) % 624] & 0x7fff_ffff);
            let xa = if x & 1 != 0 {
                (x >> 1) ^ 0x9908_b0df
            } else {
                x >> 1
            };
            let v = self.mt[(i + 397) % 624] ^ xa;
            self.mt[i] = v;
            proof {
                assert(self.mt@ == twist_step(before, i as int));
            }
            i = i + 1;
        }
        self.index = 0;
    }

    /// Extract one tempered 32-bit word, twisting first when the state
    /// is exhausted.
    pub fn gen_u32(&mut self) -> (r: u32)
        requires
            mt_wf(*old(self)),
        ensures
            mt_wf(*final(self)),
            ({
                let (y, mt2, idx2) = spec_gen_u32(old(self).mt@, old(self).index as int);
                r == y && final(self).mt@ == mt2 && final(self).index == idx2
            }),
    {
        if self.index >= 624 {
            self.twist();
        }
        let mut y = self.mt[self.index];
        self.index = self.index + 1;
        y = y ^ (y >> 11);
        y = y ^ ((y << 7) & 0x9d2c_5680);
        y = y ^ ((y << 15) & 0xefc6_0000);
        y = y ^ (y >> 18);
        y
    }
}

/// Round a value to 53 significant bits, half to even — the rounding
/// an IEEE double multiplication applies to the draw's numerator —
/// then keep the integer part of the quotient by 2^53.
pub open spec fn rn53(q: u64) -> int {
    let p: int = if q < 0x20_0000_0000_0000 {
        1
    } else if q < 0x40_0000_0000_0000 {
        2
    } else if q < 0x80_0000_0000_0000 {
        4
    } else if q < 0x100_0000_0000_0000 {
        8
    } else if q < 0x200_0000_0000_0000 {
        16
    } else if q < 0x400_0000_0000_0000 {
        32
    } else {
        64
    };
    let base = (q as int) / p;
    let rem = (q as int) % p;
    let base2: int = if 2 * rem > p || (2 * rem == p && base % 2 == 1) {
        base + 1
    } else {
        base
    };
    (base2 * p) / 0x20_0000_0000_0000
}

/// Exec mirror of `rn53`.
fn rn53_exec(q: u64) -> (r: u64)
    requires
        q < 0x800_0000_0000_0000,
    ensures
        r == rn53(q),
{
    let p: u64 = if q < 0x20_0000_0000_0000 {
        1
    } else if q < 0x40_0000_0000_0000 {
        2
    } else if q < 0x80_0000_0000_0000 {
        4
    } else if q < 0x100_0000_0000_0000 {
        8
    } else if q < 0x200_0000_0000_0000 {
        16
    } else if q < 0x400_0000_0000_0000 {
        32
    } else {
        64
    };
    let base = q / p;
    let rem = q % p;
    let base2: u64 = if 2 * rem > p || (2 * rem == p && base % 2 == 1) {
        base + 1
    } else {
        base
    };
    proof {
        vstd::arithmetic::div_mod::lemma_fundamental_div_mod(q as int, p as int);
        assert(base2 * p <= q + p) by (nonlinear_arith)
            requires
                base2 <= base + 1,
                base * p + rem == q,
                rem >= 0,
                p >= 1,
        ;
    }
    (base2 * p) / 0x20_0000_0000_0000
}

/// The index in `0..span` the generator's two-word draw selects,
/// mirroring the reduction `a + int(random() * span)` computed in
/// 64-bit floating point: the 53-bit numerator times the span,
/// rounded to double precision, truncated to an integer. The final
/// clamp is defensive; the rounding never actually reaches `span`.
pub open spec fn mt_draw_index(y1: u32, y2: u32, span: int) -> int {
    let numerator = (y1 >> 5) * 0x400_0000 + (y2 >> 6);
    let j = rn53((numerator * span) as u64);
    if j >= span {
        span - 1
    } else {
        j
    }
}

impl MTRandom {
    /// A draw in `a..=b`, via the generator's two-word double-precision
    /// reduction. Spans are at most deck-sized.
    pub fn randint_inclusive(&mut self, a: usize, b: usize) -> (r: usize)
        requires
            mt_wf(*old(self)),
            a <= b,
            b - a + 1 <= 52,
        ensures
            mt_wf(*final(self)),
            a <= r <= b,
            b == a ==> r == a && *final(self) == *old(self),
            b > a ==> ({
                let (y1, m1, i1) = spec_gen_u32(old(self).mt@, old(self).index as int);
                let (y2, m2, i2) = spec_gen_u32(m1, i1);
                &&& r == a + mt_draw_index(y1, y2, b - a + 1)
                &&& final(self).mt@ == m2
                &&& final(self).index == i2
            }),
    {
        let span = b - a + 1;
        if span <= 1 {
            return a;
        }
        let y1 = self.gen_u32();
        let y2 = self.gen_u32();
        proof {
            assert(y1 >> 5 < 0x800_0000 && y2 >> 6 < 0x400_0000) by (bit_vector);
        }
        let hi = (y1 >> 5) as u64;
        let lo = (y2 >> 6) as u64;
        let numerator = hi * 0x400_0000 + lo;
        proof {
            assert(numerator * span < 0x800_0000_0000_0000) by (nonlinear_arith)
                requires
                    numerator < 0x20_0000_0000_0000,
                    0 <= span <= 52,
            ;
        }
        let q = numerator * (span as u64);
        let j = rn53_exec(q);
        let j_clamped = if j >= span as u64 {
            span - 1
        } else {
            j as usize
        };
        proof {
            assert(rn53(q) >= 0);
        }
        a + j_clamped
    }
}

/// One step of the swap-down shuffle on the Mersenne Twister: state
/// is (entries, generator words, generator index).
pub open spec fn mt_shuffle_step(st: (Seq<u8>, Seq<u32>, int), n: int) -> (Seq<u8>, Seq<u32>, int) {
    let (v, mt, idx) = st;
    let g1 = spec_gen_u32(mt, idx);
    let g2 = spec_gen_u32(g1.1, g1.2);
    let j = mt_draw_index(g1.0, g2.0, n + 1);
    (v.update(n, v[j]).update(j, v[n]), g2.1, g2.2)
}

/// The shuffle's state after handling positions `len-1` down to `n+1`.
pub open spec fn mt_shuffle_from(st: (Seq<u8>, Seq<u32>, int), n: int) -> (Seq<u8>, Seq<u32>, int)
    decreases st.0.len() - n,
{
    if n < 0 || n + 1 >= st.0.len() {
        st
    } else {
        mt_shuffle_step(mt_shuffle_from(st, n + 1), n + 1)
    }
}

/// Shuffle in place with the Mersenne Twister, exactly as the spec
/// fold describes; the multiset of entries is preserved.
pub fn shuffle_mt(rng: &mut MTRandom, v: &mut Vec<u8>)
    requires
        mt_wf(*old(rng)),
        1 <= old(v)@.len() <= 52,
    ensures
        mt_wf(*final(rng)),
        (final(v)@, final(rng).mt@, final(rng).index as int) == mt_shuffle_from(
            (old(v)@, old(rng).mt@, old(rng).index as int),
            0,
        ),
        final(v)@.to_multiset() == old(v)@.to_multiset(),
        final(v)@.len() == old(v)@.len(),
{
    let ghost st0 = (v@, rng.mt@, rng.index as int);
    let mut n: usize = v.len() - 1;
    while n >= 1
        invariant
            n <= st0.0.len() - 1,
            1 <= st0.0.len() <= 52,
            mt_wf(*rng),
            (v@, rng.mt@, rng.index as int) == mt_shuffle_from(st0, n as int),
            v@.to_multiset() == st0.0.to_multiset(),
            v@.len() == st0.0.len(),
        decreases n,
    {
        let ghost before = (v@, rng.mt@, rng.index as int);
        let j = rng.randint_inclusive(0, n);
        let vn = v[n];
        let vj = v[j];
        v[n] = vj;
        v[j] = vn;
        proof {
            assert((v@, rng.mt@, rng.index as int) == mt_shuffle_step(before, n as int)) by {
                assert(v@ =~= before.0.update(n as int, before.0[j as int]).update(
                    j as int,
                    before.0[n as int],
                ));
            }
            assert(mt_shuffle_from(st0, n - 1) == mt_shuffle_step(
                mt_shuffle_from(st0, n as int),
                n as int,
            ));
            if j < n {
                assert(v@ =~= before.0.update(j as int, before.0[n as int]).update(
                    n as int,
                    before.0[j as int],
                ));
                crate::card::lemma_swap_multiset(before.0, j as int, n as int);
            } else {
                assert(v@ =~= before.0);
            }
        }
        n = n - 1;
    }
}

// --- Seed normalization and deck generation ---

/// Separator characters removed during seed normalization:
/// whitespace, `#`, `-`, `_`, `.` and `,`.
pub open spec fn is_sep_b(b: u8) -> bool {
    is_ws_b(b) || b == 35 || b == 45 || b == 95 || b == 46 || b == 44
}

/// Seed cleaning: drop separators, lower-case ASCII letters.
pub open spec fn spec_clean(b: Seq<u8>) -> Seq<u8>
    decreases b.len(),
{
    if b.len() == 0 {
        Seq::empty()
    } else if is_sep_b(b.last()) {
        spec_clean(b.drop_last())
    } else {
        spec_clean(b.drop_last()).push(lower_b(b.last()))
    }
}

/// The normalized form of a seed string's bytes: trim whitespace,
/// drop one trailing `L`, then clean.
pub open spec fn spec_norm_input(b: Seq<u8>) -> Seq<u8> {
    let t = trim_b(b);
    let t2 = if t.len() > 0 && t.last() == 76 {
        t.drop_last()
    } else {
        t
    };
    spec_clean(t2)
}

/// A normalized seed: either an `ms` game number for the 31-bit
/// generator, or an arbitrarily long decimal number kept as its digit
/// bytes.
pub enum PysolSeed {
    Ms(u64),
    Num(Vec<u8>),
}

impl PysolSeed {
    /// The seed as it is shown in labels: `ms<n>`, or the decimal
    /// digits without leading zeros.
    pub fn as_display_str(&self) -> (r: String)
        requires
            self is Num ==> self->Num_0@.len() > 0 && all_digits_b(self->Num_0@),
        ensures
            self is Ms ==> r@ == "ms"@ + crate::text::dec_digits_u64(self->Ms_0 as int),
            self is Num ==> r@ == strip_zeros(self->Num_0@).map_values(|x: u8| x as char),
    {
        match self {
            PysolSeed::Ms(n) => {
                let mut s = String::new();
                s.append("ms");
                crate::text::push_u64_decimal(&mut s, *n);
                s
            },
            PysolSeed::Num(digits) => {
                proof {
                    assert(digits@.skip(0) =~= digits@);
                }
                let mut start: usize = 0;
                while start < digits.len() - 1 && digits[start] == 48
                    invariant
                        digits@.len() > 0,
                        start < digits@.len(),
                        strip_zeros(digits@) == strip_zeros(digits@.skip(start as int)),
                    decreases digits@.len() - start,
                {
                    proof {
                        assert(digits@.skip(start as int).drop_first() =~= digits@.skip(
                            start + 1,
                        ));
                    }
                    start = start + 1;
                }
                let mut s = String::new();
                let mut k = start;
                while k < digits.len()
                    invariant
                        start <= k <= digits@.len(),
                        s@ == digits@.subrange(start as int, k as int).map_values(
                            |x: u8| x as char,
                        ),
                    decreases digits@.len() - k,
                {
                    crate::text::push_char(&mut s, digits[k] as char);
                    proof {
                        assert(digits@.subrange(start as int, k + 1).map_values(
                            |x: u8| x as char,
                        ) =~= digits@.subrange(start as int, k as int).map_values(
                            |x: u8| x as char,
                        ).push(digits@[k as int] as char));
                    }
                    k = k + 1;
                }
                proof {
                    assert(strip_zeros(digits@.skip(start as int)) =~= digits@.skip(
                        start as int,
                    ));
                    assert(digits@.subrange(start as int, digits@.len() as int) =~= digits@.skip(
                        start as int,
                    ));
                }
                s
            },
        }
    }
}

/// Digits without their leading zeros; a lone zero is kept.
pub open spec fn strip_zeros(d: Seq<u8>) -> Seq<u8>
    decreases d.len(),
{
    if d.len() > 1 && d[0] == 48 {
        strip_zeros(d.drop_first())
    } else {
        d
    }
}

/// Exec mirror of `is_sep_b`.
fn is_sep_byte(b: u8) -> (r: bool)
    ensures
        r == is_sep_b(b),
{
    is_ws_byte(b) || b == 35 || b == 45 || b == 95 || b == 46 || b == 44
}

/// Normalize a seed string: trim it, drop one trailing `L`, strip
/// separators, lower-case, then classify as an `ms` game number or a
/// plain decimal number. The contract pins the accepted seeds and the
/// message for every rejected one.
pub fn normalize_pysol_seed_str(s: &str) -> (r: Result<PysolSeed, String>)
    ensures
        ({
            let c = spec_norm_input(s.spec_bytes());
            &&& (c.len() == 0 ==> r is Err && r->Err_0@ == "empty seed"@)
            &&& (c.len() >= 2 && c[0] == 109 && c[1] == 115 ==> {
                let rest = c.skip(2);
                if rest.len() == 0 || !all_digits_b(rest) {
                    r is Err && r->Err_0@ == "invalid ms seed"@
                } else if int_of_digits(rest) > u64::MAX {
                    r is Err && r->Err_0@ == "could not parse ms seed"@
                } else {
                    r is Ok && r->Ok_0 is Ms && r->Ok_0->Ms_0 == int_of_digits(rest)
                }
            })
            &&& (c.len() > 0 && !(c.len() >= 2 && c[0] == 109 && c[1] == 115) ==> {
                if all_digits_b(c) {
                    r is Ok && r->Ok_0 is Num && r->Ok_0->Num_0@ == c
                } else {
                    r is Err && r->Err_0@ == "seed contains non-digits after normalization"@
                }
            })
        }),
{
    let bytes = s.as_bytes();
    let ghost bb = s.spec_bytes();

    // Trim whitespace from both ends.
    let mut lo: usize = 0;
    while lo < bytes.len() && is_ws_byte(bytes[lo])
        invariant
            lo <= bb.len(),
            bb == bytes@,
            forall|j: int| 0 <= j < lo ==> is_ws_b(#[trigger] bb[j]),
        decreases bb.len() - lo,
    {
        lo = lo + 1;
    }
    proof {
        lemma_trim_start(bb, lo as int);
    }
    let mut hi: usize = bytes.len();
    while hi > lo && is_ws_byte(bytes[hi - 1])
        invariant
            lo <= hi <= bb.len(),
            bb == bytes@,
            forall|j: int| hi <= j < bb.len() ==> is_ws_b(#[trigger] bb[j]),
        decreases hi,
    {
        hi = hi - 1;
    }
    let ghost t = trim_b(bb);
    proof {
        let sk = bb.skip(lo as int);
        assert forall|j: int| hi - lo <= j < sk.len() implies is_ws_b(#[trigger] sk[j]) by {
            assert(sk[j] == bb[j + lo]);
        }
        if hi > lo {
            assert(sk[hi - lo - 1] == bb[hi - 1]);
        }
        lemma_trim_end(sk, hi - lo);
        assert(t =~= bb.subrange(lo as int, hi as int));
    }

    // Drop one trailing 'L'.
    let mut hi2 = hi;
    if hi > lo && bytes[hi - 1] == 76 {
        hi2 = hi - 1;
    }
    let ghost t2 = if t.len() > 0 && t.last() == 76 {
        t.drop_last()
    } else {
        t
    };
    proof {
        assert(t2 =~= bb.subrange(lo as int, hi2 as int));
    }

    // Strip separators and lower-case.
    let mut cleaned: Vec<u8> = Vec::new();
    let mut k = lo;
    while k < hi2
        invariant
            lo <= k <= hi2 <= bb.len(),
            bb == bytes@,
            cleaned@ == spec_clean(bb.subrange(lo as int, k as int)),
        decreases hi2 - k,
    {
        let x = bytes[k];
        proof {
            assert(bb.subrange(lo as int, k + 1).drop_last() =~= bb.subrange(
                lo as int,
                k as int,
            ));
        }
        if !is_sep_byte(x) {
            cleaned.push(lower_byte(x));
        }
        k = k + 1;
    }
    let ghost c = spec_norm_input(bb);
    proof {
        assert(cleaned@ == c);
    }

    if cleaned.len() == 0 {
        return Err("empty seed".to_owned());
    }

    // `ms` prefix: a game number for the 31-bit generator.
    if cleaned.len() >= 2 && cleaned[0] == 109 && cleaned[1] == 115 {
        if cleaned.len() == 2 {
            return Err("invalid ms seed".to_owned());
        }
        // First pass: the rest must be all digits.
        let mut i: usize = 2;
        while i < cleaned.len()
            invariant
                2 <= i <= cleaned@.len(),
                cleaned@.len() > 2,
                bb == s.spec_bytes(),
                c == spec_norm_input(bb),
                cleaned@ == c,
                c[0] == 109 && c[1] == 115,
                forall|j: int| 2 <= j < i ==> is_digit_b(#[trigger] c[j]),
            decreases cleaned@.len() - i,
        {
            let d = cleaned[i];
            if !(48 <= d && d <= 57) {
                proof {
                    assert(c.skip(2)[i - 2] == c[i as int]);
                }
                return Err("invalid ms seed".to_owned());
            }
            i = i + 1;
        }
        proof {
            assert forall|j: int| 0 <= j < c.skip(2).len() implies is_digit_b(
                #[trigger] c.skip(2)[j],
            ) by {
                assert(c.skip(2)[j] == c[j + 2]);
            }
        }
        // Second pass: accumulate, rejecting values beyond 64 bits.
        let mut acc: u64 = 0;
        let mut i: usize = 2;
        while i < cleaned.len()
            invariant
                2 <= i <= cleaned@.len(),
                cleaned@.len() > 2,
                bb == s.spec_bytes(),
                c == spec_norm_input(bb),
                cleaned@ == c,
                c[0] == 109 && c[1] == 115,
                all_digits_b(c.skip(2)),
                acc == int_of_digits(c.subrange(2, i as int)),
            decreases cleaned@.len() - i,
        {
            let d = cleaned[i];
            proof {
                assert(c.subrange(2, i + 1).drop_last() =~= c.subrange(2, i as int));
                assert(c.skip(2)[i - 2] == c[i as int]);
            }
            if acc > (u64::MAX - ((d - 48) as u64)) / 10 {
                proof {
                    let part = c.subrange(2, i + 1);
                    assert(int_of_digits(part) > u64::MAX);
                    lemma_digits_monotonic(c.skip(2), i + 1 - 2);
                    assert(c.skip(2).take(i + 1 - 2) =~= part);
                }
                return Err("could not parse ms seed".to_owned());
            }
            acc = acc * 10 + (d - 48) as u64;
            i = i + 1;
        }
        proof {
            assert(c.subrange(2, c.len() as int) =~= c.skip(2));
        }
        return Ok(PysolSeed::Ms(acc));
    }

    // Plain decimal number.
    let mut i: usize = 0;
    while i < cleaned.len()
        invariant
            i <= cleaned@.len(),
            bb == s.spec_bytes(),
            c == spec_norm_input(bb),
            cleaned@ == c,
            c.len() > 0,
            !(c.len() >= 2 && c[0] == 109 && c[1] == 115),
            forall|j: int| 0 <= j < i ==> is_digit_b(#[trigger] c[j]),
        decreases cleaned@.len() - i,
    {
        let d = cleaned[i];
        if !(48 <= d && d <= 57) {
            return Err("seed contains non-digits after normalization".to_owned());
        }
        i = i + 1;
    }
    Ok(PysolSeed::Num(cleaned))
}

// --- The arbitrary-precision seed value, through num_bigint ---

#[verifier::external_type_specification]
#[verifier::external_body]
pub struct ExBigUint(num_bigint::BigUint);

/// The little-endian base-256 digits a `BigUint` holds, exactly the
/// bytes its `to_bytes_le` hands out.
pub uninterp spec fn biguint_bytes_le(n: num_bigint::BigUint) -> Seq<u8>;

/// The integer a little-endian byte sequence denotes.
pub open spec fn int_of_bytes_le(b: Seq<u8>) -> int
    decreases b.len(),
{
    if b.len() == 0 {
        0
    } else {
        b.first() + 256 * int_of_bytes_le(b.drop_first())
    }
}

/// Relies on num_bigint's `BigUint::parse_bytes` with radix 10: a
/// non-empty all-digit string parses to exactly its decimal value,
/// and the value's little-endian bytes are minimal (a single zero
/// byte for zero, no trailing zero byte otherwise).
#[verifier::external_body]
fn biguint_parse_decimal(digits: &Vec<u8>) -> (r: Option<num_bigint::BigUint>)
    requires
        digits@.len() > 0,
        all_digits_b(digits@),
    ensures
        r is Some,
        int_of_bytes_le(biguint_bytes_le(r->Some_0)) == int_of_digits(digits@),
        biguint_bytes_le(r->Some_0).len() >= 1,
        biguint_bytes_le(r->Some_0).len() > 1 ==> biguint_bytes_le(r->Some_0).last() != 0,
{
    num_bigint::BigUint::parse_bytes(digits.as_slice(), 10)
}

/// Relies on num_bigint's `BigUint::to_bytes_le`: the value's bytes
/// in little-endian order.
#[verifier::external_body]
fn biguint_to_bytes_le(n: &num_bigint::BigUint) -> (r: Vec<u8>)
    ensures
        r@ == biguint_bytes_le(*n),
{
    n.to_bytes_le()
}

/// Relies on num_traits' `Zero::is_zero` for `BigUint`: true exactly
/// for the value zero.
#[verifier::external_body]
fn biguint_is_zero(n: &num_bigint::BigUint) -> (r: bool)
    ensures
        r == (int_of_bytes_le(biguint_bytes_le(*n)) == 0),
{
    num_traits::Zero::is_zero(n)
}

/// The 32-bit word starting at byte `4k`, little-endian, zero-padded.
pub open spec fn word_at(b: Seq<u8>, k: int) -> u32 {
    (byte_or_zero(b, 4 * k) + byte_or_zero(b, 4 * k + 1) * 0x100 + byte_or_zero(b, 4 * k + 2)
        * 0x1_0000 + byte_or_zero(b, 4 * k + 3) * 0x100_0000) as u32
}

/// The byte at `i`, or zero past the end.
pub open spec fn byte_or_zero(b: Seq<u8>, i: int) -> int {
    if 0 <= i < b.len() {
        b[i] as int
    } else {
        0
    }
}

/// Trailing zero words removed.
pub open spec fn trim_zero_words(w: Seq<u32>) -> Seq<u32>
    decreases w.len(),
{
    if w.len() > 0 && w.last() == 0 {
        trim_zero_words(w.drop_last())
    } else {
        w
    }
}

/// The generator key derived from a seed value's little-endian
/// bytes: 32-bit words, trailing zero words trimmed, never empty.
pub open spec fn key_of_bytes(b: Seq<u8>) -> Seq<u32> {
    let w = Seq::new(((b.len() + 3) / 4) as nat, |k: int| word_at(b, k));
    let t = trim_zero_words(w);
    if t.len() == 0 {
        seq![0u32]
    } else {
        t
    }
}

/// Pack little-endian bytes into the generator's key words.
fn bytes_to_key_words(b: &Vec<u8>) -> (r: Vec<u32>)
    requires
        b@.len() <= 0x1000_0000,
    ensures
        r@ == key_of_bytes(b@),
        1 <= r@.len() <= (b@.len() + 3) / 4 + 1,
{
    let n_words = (b.len() + 3) / 4;
    let mut w: Vec<u32> = Vec::new();
    let mut k: usize = 0;
    while k < n_words
        invariant
            k <= n_words,
            n_words == (b@.len() + 3) / 4,
            b@.len() <= 0x1000_0000,
            w@.len() == k,
            forall|j: int| 0 <= j < k ==> #[trigger] w@[j] == word_at(b@, j),
        decreases n_words - k,
    {
        let b0 = if 4 * k < b.len() {
            b[4 * k] as u32
        } else {
            0
        };
        let b1 = if 4 * k + 1 < b.len() {
            b[4 * k + 1] as u32
        } else {
            0
        };
        let b2 = if 4 * k + 2 < b.len() {
            b[4 * k + 2] as u32
        } else {
            0
        };
        let b3 = if 4 * k + 3 < b.len() {
            b[4 * k + 3] as u32
        } else {
            0
        };
        w.push(b0 + b1 * 0x100 + b2 * 0x1_0000 + b3 * 0x100_0000);
        k = k + 1;
    }
    proof {
        assert(w@ =~= Seq::new(((b@.len() + 3) / 4) as nat, |j: int| word_at(b@, j)));
    }
    // Trim trailing zero words.
    while w.len() > 0 && w[w.len() - 1] == 0
        invariant
            w@.len() <= (b@.len() + 3) / 4,
            trim_zero_words(w@) == trim_zero_words(
                Seq::new(((b@.len() + 3) / 4) as nat, |j: int| word_at(b@, j)),
            ),
        decreases w@.len(),
    {
        w.pop();
    }
    if w.len() == 0 {
        w.push(0);
    }
    w
}

/// The deck the application deals from a shuffled code list: dealing
/// order is the reverse of the shuffled list, and each code is
/// translated into this crate's card encoding.
pub open spec fn deck_of_codes(codes: Seq<u8>) -> Seq<Card> {
    Seq::new(
        codes.len(),
        |i: int|
            Card(
                (pysol_suit_map(codes[codes.len() - 1 - i] as int / 13) * 13 + codes[codes.len()
                    - 1 - i] as int % 13) as u8,
            ),
    )
}

/// The card codes in the application's creation order.
pub open spec fn pysol_codes() -> Seq<u8> {
    Seq::new(52, |i: int| i as u8)
}

/// Build the final deck from shuffled codes: reverse into dealing
/// order and translate each code.
fn deck_from_codes(codes: &Vec<u8>) -> (deck: Vec<Card>)
    requires
        forall|i: int| 0 <= i < codes@.len() ==> #[trigger] codes@[i] < 52,
    ensures
        deck@ == deck_of_codes(codes@),
        forall|i: int| 0 <= i < deck@.len() ==> card_valid(#[trigger] deck@[i]),
        codes@.no_duplicates() ==> deck@.no_duplicates(),
{
    let n = codes.len();
    let mut deck: Vec<Card> = Vec::new();
    let mut i: usize = 0;
    while i < n
        invariant
            i <= n,
            n == codes@.len(),
            forall|k: int| 0 <= k < codes@.len() ==> #[trigger] codes@[k] < 52,
            deck@.len() == i,
            forall|k: int| 0 <= k < i ==> #[trigger] deck@[k] == deck_of_codes(codes@)[k],
        decreases n - i,
    {
        let code = codes[n - 1 - i];
        let card = Card(pysol_card_to_rust_index(code / 13, code % 13));
        deck.push(card);
        i = i + 1;
    }
    proof {
        assert(deck@ =~= deck_of_codes(codes@));
        assert forall|k: int| 0 <= k < deck@.len() implies card_valid(#[trigger] deck@[k]) by {
            assert(deck@[k] == deck_of_codes(codes@)[k]);
        }
        if codes@.no_duplicates() {
            assert forall|a: int, b: int|
                0 <= a < deck@.len() && 0 <= b < deck@.len() && a != b implies deck@[a]
                != deck@[b] by {
                let ca = codes@[codes@.len() - 1 - a] as int;
                let cb = codes@[codes@.len() - 1 - b] as int;
                assert(ca != cb);
                assert(pysol_suit_map(ca / 13) * 13 + ca % 13 != pysol_suit_map(cb / 13) * 13
                    + cb % 13) by {
                    vstd::arithmetic::div_mod::lemma_fundamental_div_mod(ca, 13);
                    vstd::arithmetic::div_mod::lemma_fundamental_div_mod(cb, 13);
                }
            }
        }
    }
    deck
}

/// The fresh code list `0..52`.
fn fresh_codes() -> (codes: Vec<u8>)
    ensures
        codes@ == pysol_codes(),
        codes@.no_duplicates(),
        forall|i: int| 0 <= i < codes@.len() ==> #[trigger] codes@[i] < 52,
{
    let mut codes: Vec<u8> = Vec::new();
    let mut i: u8 = 0;
    while i < 52
        invariant
            i <= 52,
            codes@.len() == i,
            forall|k: int| 0 <= k < i ==> #[trigger] codes@[k] == k,
        decreases 52 - i,
    {
        codes.push(i);
        i = i + 1;
    }
    proof {
        assert(codes@ =~= pysol_codes());
    }
    codes
}

/// Generate the exact deal a seed stands for: small and `ms` seeds
/// drive the 31-bit generator, large numeric seeds the Mersenne
/// Twister keyed from the seed's little-endian words. The result is
/// always a 52-card permutation; `ms` seeds outside the generator's
/// range are rejected.
pub fn generate_deck_from_seed(seed: &PysolSeed) -> (r: Result<Vec<Card>, String>)
    requires
        seed is Num ==> seed->Num_0@.len() > 0 && all_digits_b(seed->Num_0@) && seed->Num_0@.len()
            <= 0x1000_0000,
    ensures
        seed is Ms ==> ((1 <= seed->Ms_0 <= LC_MAX_SEED) <==> r is Ok),
        r is Ok ==> {
            &&& r->Ok_0@.len() == 52
            &&& r->Ok_0@.no_duplicates()
            &&& forall|i: int| 0 <= i < 52 ==> card_valid(#[trigger] r->Ok_0@[i])
        },
        r is Err ==> r->Err_0@ == "ms seed out of range"@ || r->Err_0@
            == "seed value too large"@,
{
    let mut codes = fresh_codes();
    match seed {
        PysolSeed::Ms(n) => {
            let mut rng = match LCRandom31::new(*n) {
                Ok(rng) => rng,
                Err(e) => {
                    return Err(e);
                },
            };
            shuffle_lc(&mut rng, &mut codes);
        },
        PysolSeed::Num(digits) => {
            // Values below 32000 use the 31-bit generator; anything
            // larger keys the Mersenne Twister.
            let small = below_32000(digits);
            if small.is_some() {
                let v = small.unwrap();
                let mut rng = match LCRandom31::new(v) {
                    Ok(rng) => rng,
                    Err(e) => {
                        return Err(e);
                    },
                };
                shuffle_lc(&mut rng, &mut codes);
            } else {
                proof {
                    assert(digits@ == seed->Num_0@);
                }
                let big = biguint_parse_decimal(digits).unwrap();
                let mut rng = MTRandom { mt: empty_state(), index: 624 };
                if biguint_is_zero(&big) {
                    let mut key: Vec<u32> = Vec::new();
                    key.push(0);
                    rng.init_by_array(&key);
                } else {
                    let bytes = biguint_to_bytes_le(&big);
                    if bytes.len() > 0x1000_0000 {
                        return Err("seed value too large".to_owned());
                    }
                    let key = bytes_to_key_words(&bytes);
                    rng.init_by_array(&key);
                }
                shuffle_mt(&mut rng, &mut codes);
            }
        },
    }
    proof {
        broadcast use vstd::seq_lib::group_to_multiset_ensures;

        pysol_codes().lemma_multiset_has_no_duplicates();
        codes@.lemma_multiset_has_no_duplicates_conv();
        assert forall|i: int| 0 <= i < codes@.len() implies #[trigger] codes@[i] < 52 by {
            assert(codes@.to_multiset().contains(codes@[i]));
            assert(pysol_codes().to_multiset().contains(codes@[i]));
            assert(pysol_codes().contains(codes@[i]));
        }
    }
    Ok(deck_from_codes(&codes))
}

/// A 624-word zero state for the generator to initialize over.
fn empty_state() -> (r: Vec<u32>)
    ensures
        r@.len() == 624,
{
    let mut v: Vec<u32> = Vec::new();
    let mut i: usize = 0;
    while i < 624
        invariant
            i <= 624,
            v@.len() == i,
        decreases 624 - i,
    {
        v.push(0);
        i = i + 1;
    }
    v
}

/// `Some(value)` when the digits denote a number below 32000.
fn below_32000(digits: &Vec<u8>) -> (r: Option<u64>)
    requires
        digits@.len() > 0,
        all_digits_b(digits@),
    ensures
        r is Some <==> int_of_digits(digits@) < 32000,
        r is Some ==> r.unwrap() == int_of_digits(digits@),
{
    // Skip leading zeros; five or more significant digits means the
    // value is at least 10000, and at most five fit below 100000.
    let mut start: usize = 0;
    proof {
        assert(digits@.skip(0) =~= digits@);
    }
    while start < digits.len() - 1 && digits[start] == 48
        invariant
            digits@.len() > 0,
            all_digits_b(digits@),
            start < digits@.len(),
            int_of_digits(digits@) == int_of_digits(digits@.skip(start as int)),
        decreases digits@.len() - start,
    {
        proof {
            lemma_leading_zero(digits@.skip(start as int));
            assert(digits@.skip(start as int).drop_first() =~= digits@.skip(start + 1));
        }
        start = start + 1;
    }
    let sig = digits.len() - start;
    if sig > 5 {
        proof {
            lemma_digits_lower_bound(digits@.skip(start as int));
        }
        return None;
    }
    // At most five digits: the value fits comfortably in u64.
    let mut acc: u64 = 0;
    let mut i = start;
    while i < digits.len()
        invariant
            start <= i <= digits@.len(),
            digits@.len() - start <= 5,
            all_digits_b(digits@),
            int_of_digits(digits@) == int_of_digits(digits@.skip(start as int)),
            acc == int_of_digits(digits@.subrange(start as int, i as int)),
            acc <= 99999,
        decreases digits@.len() - i,
    {
        proof {
            assert(digits@.subrange(start as int, i + 1).drop_last() =~= digits@.subrange(
                start as int,
                i as int,
            ));
            lemma_digits_value_bound(digits@.subrange(start as int, i + 1));
            assert(pow10(0) == 1);
            assert(pow10(1) == 10);
            assert(pow10(2) == 100);
            assert(pow10(3) == 1000);
            assert(pow10(4) == 10000);
            assert(pow10(5) == 100000);
            lemma_pow10_monotonic((i + 1 - start) as nat, 5);
        }
        acc = acc * 10 + (digits[i] - 48) as u64;
        i = i + 1;
    }
    proof {
        assert(digits@.subrange(start as int, digits@.len() as int) =~= digits@.skip(
            start as int,
        ));
    }
    if acc < 32000 {
        Some(acc)
    } else {
        None
    }
}

/// A leading zero does not change a number's value.
proof fn lemma_leading_zero(d: Seq<u8>)
    requires
        d.len() > 0,
        d[0] == 48,
    ensures
        int_of_digits(d) == int_of_digits(d.drop_first()),
    decreases d.len(),
{
    if d.len() == 1 {
        assert(d.drop_first() =~= Seq::<u8>::empty());
        assert(d.drop_last() =~= Seq::<u8>::empty());
        assert(int_of_digits(d) == int_of_digits(d.drop_last()) * 10 + (d.last() - 48));
    } else {
        assert(d.drop_last()[0] == d[0]);
        lemma_leading_zero(d.drop_last());
        assert(d.drop_last().drop_first() =~= d.drop_first().drop_last());
        assert(d.drop_first().last() == d.last());
        let df = d.drop_first();
        assert(int_of_digits(d) == int_of_digits(d.drop_last()) * 10 + (d.last() - 48));
        assert(int_of_digits(df) == int_of_digits(df.drop_last()) * 10 + (df.last() - 48));
        assert(int_of_digits(d.drop_last()) == int_of_digits(d.drop_last().drop_first()));
        assert(int_of_digits(d) == int_of_digits(df.drop_last()) * 10 + (d.last() - 48));
    }
}

/// A digit string without a leading zero and more than five digits
/// denotes at least 100000.
proof fn lemma_digits_lower_bound(d: Seq<u8>)
    requires
        d.len() >= 1,
        forall|i: int| 0 <= i < d.len() ==> is_digit_b(#[trigger] d[i]),
        d[0] != 48,
    ensures
        d.len() >= 6 ==> int_of_digits(d) >= 100000,
        d.len() >= 1 ==> int_of_digits(d) >= 1 * pow10((d.len() - 1) as nat),
    decreases d.len(),
{
    if d.len() == 1 {
        assert(pow10(0) == 1);
    } else {
        lemma_digits_lower_bound(d.drop_last());
        assert(int_of_digits(d) == int_of_digits(d.drop_last()) * 10 + (d.last() - 48));
        assert(pow10((d.len() - 1) as nat) == pow10((d.len() - 2) as nat) * 10);
        assert(pow10(0) == 1);
        assert(pow10(1) == 10);
        assert(pow10(2) == 100);
        assert(pow10(3) == 1000);
        assert(pow10(4) == 10000);
        assert(pow10(5) == 100000);
        if d.len() >= 6 {
            lemma_pow10_monotonic((5) as nat, (d.len() - 1) as nat);
        }
    }
}

/// Powers of ten.
pub open spec fn pow10(n: nat) -> int
    decreases n,
{
    if n == 0 {
        1
    } else {
        pow10((n - 1) as nat) * 10
    }
}

proof fn lemma_pow10_monotonic(a: nat, b: nat)
    requires
        a <= b,
    ensures
        pow10(a) <= pow10(b),
        pow10(a) >= 1,
    decreases b,
{
    if a < b {
        lemma_pow10_monotonic(a, (b - 1) as nat);
    } else if b > 0 {
        lemma_pow10_monotonic((a - 1) as nat, (b - 1) as nat);
    }
}

/// An all-digit string of length `n` denotes less than `10^n`.
proof fn lemma_digits_value_bound(d: Seq<u8>)
    requires
        forall|i: int| 0 <= i < d.len() ==> is_digit_b(#[trigger] d[i]),
    ensures
        0 <= int_of_digits(d) < pow10(d.len()),
    decreases d.len(),
{
    if d.len() > 0 {
        lemma_digits_value_bound(d.drop_last());
        assert(int_of_digits(d) == int_of_digits(d.drop_last()) * 10 + (d.last() - 48));
        assert(pow10(d.len()) == pow10((d.len() - 1) as nat) * 10);
    }
}

/// Generate a labelled deal from a game-number / seed string:
/// normalize the seed, reproduce the matching shuffle, and label the
/// result `seed:<normalized>`.
pub fn deck_from_pysol_seed_str(seed_s: &str) -> (r: Result<DeckSpec, String>)
    ensures
        r is Ok ==> {
            &&& r->Ok_0.deck@.len() == 52
            &&& r->Ok_0.deck@.no_duplicates()
            &&& forall|i: int| 0 <= i < 52 ==> card_valid(#[trigger] r->Ok_0.deck@[i])
        },
{
    let seed = match normalize_pysol_seed_str(seed_s) {
        Ok(seed) => seed,
        Err(e) => {
            return Err(e);
        },
    };
    match &seed {
        PysolSeed::Num(d) => {
            if d.len() > 0x1000_0000 {
                return Err("seed has too many digits".to_owned());
            }
        },
        PysolSeed::Ms(_) => {},
    }
    let deck = match generate_deck_from_seed(&seed) {
        Ok(deck) => deck,
        Err(e) => {
            return Err(e);
        },
    };
    let mut label = String::new();
    label.append("seed:");
    let shown = seed.as_display_str();
    label.append(shown.as_str());
    Ok(DeckSpec { label, deck })
}

/// Generate one deal per seed line: blank lines and `#` comments are
/// ignored, anything after `#` on a line is dropped, and the first
/// bad seed aborts with its error.
pub fn seeds_from_text(text: &str) -> (r: Result<Vec<DeckSpec>, String>)
    ensures
        r is Ok ==> forall|k: int|
            0 <= k < r->Ok_0@.len() ==> {
                &&& (#[trigger] r->Ok_0@[k]).deck@.len() == 52
                &&& r->Ok_0@[k].deck@.no_duplicates()
                &&& forall|c: int| 0 <= c < 52 ==> card_valid(#[trigger] r->Ok_0@[k].deck@[c])
            },
{
    let bytes = text.as_bytes();
    let mut out: Vec<DeckSpec> = Vec::new();
    let mut start: usize = 0;
    let n = bytes.len();
    while start < n
        invariant
            start <= n,
            n == bytes@.len(),
            bytes@ == text.spec_bytes(),
            forall|k: int|
                0 <= k < out@.len() ==> {
                    &&& (#[trigger] out@[k]).deck@.len() == 52
                    &&& out@[k].deck@.no_duplicates()
                    &&& forall|c: int| 0 <= c < 52 ==> card_valid(#[trigger] out@[k].deck@[c])
                },
        decreases n - start,
    {
        // Take one line.
        let mut end: usize = start;
        while end < n && bytes[end] != 10
            invariant
                start <= end <= n,
                n == bytes@.len(),
            decreases n - end,
        {
            end = end + 1;
        }
        // Drop a comment, then trim.
        let mut eff_end = end;
        let mut k = start;
        while k < eff_end
            invariant
                start <= k <= eff_end <= n,
                n == bytes@.len(),
            decreases eff_end - k,
        {
            if bytes[k] == 35 {
                eff_end = k;
            } else {
                k = k + 1;
            }
        }
        let mut lo = start;
        while lo < eff_end && is_ws_byte(bytes[lo])
            invariant
                start <= lo <= eff_end <= n,
                n == bytes@.len(),
            decreases eff_end - lo,
        {
            lo = lo + 1;
        }
        let mut hi = eff_end;
        while hi > lo && is_ws_byte(bytes[hi - 1])
            invariant
                lo <= hi <= eff_end <= n,
                n == bytes@.len(),
            decreases hi,
        {
            hi = hi - 1;
        }
        if hi > lo {
            // Rebuild the line as a string for the seed parser.
            let mut line = String::new();
            let mut k = lo;
            while k < hi
                invariant
                    lo <= k <= hi <= n,
                    n == bytes@.len(),
                decreases hi - k,
            {
                crate::text::push_char(&mut line, bytes[k] as char);
                k = k + 1;
            }
            match deck_from_pysol_seed_str(line.as_str()) {
                Ok(spec) => {
                    out.push(spec);
                },
                Err(e) => {
                    return Err(e);
                },
            }
        }
        start = if end < n {
            end + 1
        } else {
            n
        };
    }
    Ok(out)
}

} // verus!
