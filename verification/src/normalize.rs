//! Normalization of execution-error texts.  An error rendering may embed
//! the index of the failing instruction ("Error processing Instruction 3: "),
//! which would split one error class into many counting buckets.  The
//! normalizer removes every such prefix — the fixed literal, one or more
//! digits, then a colon and a space — scanning left to right, so that all
//! instruction-index variants of an error collapse into one bucket.

use vstd::prelude::*;

verus! {

/// The bytes of the literal "Error processing Instruction ".
pub open spec fn marker() -> Seq<u8> {
    seq![
        69u8, 114u8, 114u8, 111u8, 114u8, 32u8, 112u8, 114u8, 111u8, 99u8, 101u8, 115u8, 115u8,
        105u8, 110u8, 103u8, 32u8, 73u8, 110u8, 115u8, 116u8, 114u8, 117u8, 99u8, 116u8, 105u8,
        111u8, 110u8, 32u8,
    ]
}

/// The marker literal as bytes.
pub fn marker_bytes() -> (r: Vec<u8>)
    ensures
        r@ == marker(),
{
    let mut r: Vec<u8> = Vec::new();
    r.push(69);
    r.push(114);
    r.push(114);
    r.push(111);
    r.push(114);
    r.push(32);
    r.push(112);
    r.push(114);
    r.push(111);
    r.push(99);
    r.push(101);
    r.push(115);
    r.push(115);
    r.push(105);
    r.push(110);
    r.push(103);
    r.push(32);
    r.push(73);
    r.push(110);
    r.push(115);
    r.push(116);
    r.push(114);
    r.push(117);
    r.push(99);
    r.push(116);
    r.push(105);
    r.push(111);
    r.push(110);
    r.push(32);
    proof {
        assert(r@ =~= marker());
    }
    r
}

pub open spec fn is_digit(b: u8) -> bool {
    48 <= b && b <= 57
}

/// How many consecutive digit bytes stand at position `i`.
pub open spec fn digit_run(s: Seq<u8>, i: int) -> int
    decreases s.len() - i when 0 <= i <= s.len()
{
    if i < s.len() && is_digit(s[i]) {
        1 + digit_run(s, i + 1)
    } else {
        0
    }
}

/// The marker literal stands at position `i`.
pub open spec fn marker_at(s: Seq<u8>, i: int) -> bool {
    &&& 0 <= i
    &&& i + 29 <= s.len()
    &&& forall|j: int| 0 <= j < 29 ==> s[i + j] == marker()[j]
}

/// The length of the instruction-index prefix standing at position `i`,
/// if one does: the marker, one or more digits, then ": ".
pub open spec fn match_len_at(s: Seq<u8>, i: int) -> Option<int> {
    let d = digit_run(s, i + 29);
    if marker_at(s, i) && d >= 1 && i + 29 + d + 2 <= s.len() && s[i + 29 + d] == 58 && s[i + 29
        + d + 1] == 32 {
        Some(29 + d + 2)
    } else {
        None
    }
}

/// The text from position `i` on, with every prefix match removed,
/// scanning left to right.
pub open spec fn normalize_from(s: Seq<u8>, i: int) -> Seq<u8>
    decreases s.len() - i when 0 <= i <= s.len()
{
    if i >= s.len() {
        Seq::empty()
    } else {
        match match_len_at(s, i) {
            Some(l) => normalize_from(s, i + l),
            None => seq![s[i]] + normalize_from(s, i + 1),
        }
    }
}

/// The normalized form of an error text.
pub open spec fn normalize_spec(s: Seq<u8>) -> Seq<u8> {
    normalize_from(s, 0)
}

proof fn lemma_digit_run_exact(s: Seq<u8>, a: int, d: int)
    requires
        0 <= a,
        0 <= d,
        a + d <= s.len(),
        forall|j: int| a <= j < a + d ==> is_digit(#[trigger] s[j]),
        a + d == s.len() || !is_digit(s[a + d]),
    ensures
        digit_run(s, a) == d,
    decreases d,
{
    if d > 0 {
        assert(is_digit(s[a]));
        lemma_digit_run_exact(s, a + 1, d - 1);
    }
}

/// The length of the digit run at `i`, together with the bound that makes
/// index arithmetic on it safe.
fn count_digits(s: &Vec<u8>, start: usize) -> (r: usize)
    requires
        start <= s@.len(),
    ensures
        digit_run(s@, start as int) == r as int,
        start + r <= s@.len(),
{
    let n: usize = s.len();
    let mut d: usize = 0;
    while start + d < n && s[start + d] >= 48 && s[start + d] <= 57
        invariant
            n == s@.len(),
            start + d <= n,
            forall|j: int| start <= j < start + d ==> is_digit(#[trigger] s@[j]),
        decreases n - start - d,
    {
        d += 1;
    }
    proof {
        lemma_digit_run_exact(s@, start as int, d as int);
    }
    d
}

/// The length of the prefix match at `i`, if one stands there.
fn match_at(s: &Vec<u8>, i: usize, m: &Vec<u8>) -> (r: Option<usize>)
    requires
        m@ == marker(),
        i <= s@.len(),
    ensures
        match r {
            Some(l) => match_len_at(s@, i as int) == Some(l as int) && 1 <= l && i + l <= s@.len(),
            None => match_len_at(s@, i as int) is None,
        },
{
    let n: usize = s.len();
    if n - i < 29 {
        return None;
    }
    let mut j: usize = 0;
    while j < 29
        invariant
            n == s@.len(),
            i + 29 <= n,
            j <= 29,
            m@ == marker(),
            forall|t: int| 0 <= t < j ==> s@[i + t] == marker()[t],
        decreases 29 - j,
    {
        if s[i + j] != m[j] {
            assert(s@[i + j] != marker()[j as int]);
            return None;
        }
        j += 1;
    }
    assert(marker_at(s@, i as int));
    let d = count_digits(s, i + 29);
    if d == 0 {
        return None;
    }
    if s.len() - (i + 29 + d) < 2 {
        return None;
    }
    if s[i + 29 + d] == 58 && s[i + 29 + d + 1] == 32 {
        Some(29 + d + 2)
    } else {
        None
    }
}

/// Strips every instruction-index prefix from an error text.
pub fn normalize_error(s: &Vec<u8>) -> (r: Vec<u8>)
    ensures
        r@ == normalize_spec(s@),
{
    let m = marker_bytes();
    let n: usize = s.len();
    let mut out: Vec<u8> = Vec::new();
    let mut i: usize = 0;
    while i < n
        invariant
            n == s@.len(),
            i <= n,
            m@ == marker(),
            normalize_from(s@, 0) == out@ + normalize_from(s@, i as int),
        decreases n - i,
    {
        let ghost pre_out = out@;
        match match_at(s, i, &m) {
            Some(l) => {
                proof {
                    assert(normalize_from(s@, i as int) == normalize_from(s@, i as int + l as int));
                }
                i += l;
            },
            None => {
                out.push(s[i]);
                proof {
                    assert(normalize_from(s@, i as int) == seq![s@[i as int]] + normalize_from(
                        s@,
                        i as int + 1,
                    ));
                    assert(out@ + normalize_from(s@, i as int + 1) =~= pre_out + normalize_from(
                        s@,
                        i as int,
                    ));
                }
                i += 1;
            },
        }
    }
    proof {
        assert(normalize_from(s@, n as int) =~= Seq::<u8>::empty());
        assert(out@ + normalize_from(s@, n as int) =~= out@);
    }
    out
}

} // verus!
