//! Byte-level scanning helpers shared by the element parsers.
//!
//! The engine treats its input as a sequence of bytes; all grammar
//! specifications are stated over `Seq<u8>`.
use vstd::prelude::*;
use vstd::slice::slice_subrange;

verus! {

/// True for the ASCII whitespace bytes (space, tab, line feed, form feed,
/// carriage return).
pub open spec fn is_ws(b: u8) -> bool {
    b == 32 || b == 9 || b == 10 || b == 12 || b == 13
}

/// True for an ASCII decimal digit.
pub open spec fn is_digit(b: u8) -> bool {
    48 <= b <= 57
}

/// True for an ASCII letter.
pub open spec fn is_alpha(b: u8) -> bool {
    (65 <= b <= 90) || (97 <= b <= 122)
}

/// True for a byte allowed in a macro name: letter, digit, `-` or `_`.
pub open spec fn is_name_byte(b: u8) -> bool {
    is_alpha(b) || is_digit(b) || b == 45 || b == 95
}

pub fn byte_is_ws(b: u8) -> (r: bool)
    ensures
        r == is_ws(b),
{
    b == 32 || b == 9 || b == 10 || b == 12 || b == 13
}

pub fn byte_is_digit(b: u8) -> (r: bool)
    ensures
        r == is_digit(b),
{
    48 <= b && b <= 57
}

pub fn byte_is_alpha(b: u8) -> (r: bool)
    ensures
        r == is_alpha(b),
{
    (65 <= b && b <= 90) || (97 <= b && b <= 122)
}

pub fn byte_is_name(b: u8) -> (r: bool)
    ensures
        r == is_name_byte(b),
{
    byte_is_alpha(b) || byte_is_digit(b) || b == 45 || b == 95
}

/// Index of the first occurrence of `b` in `s`, if any.
pub open spec fn find_byte(s: Seq<u8>, b: u8) -> Option<int>
    decreases s.len(),
{
    if s.len() == 0 {
        None
    } else if s[0] == b {
        Some(0)
    } else {
        match find_byte(s.subrange(1, s.len() as int), b) {
            Some(i) => Some(i + 1),
            None => None,
        }
    }
}

/// `find_byte` returns exactly the first occurrence: a witness at the
/// returned index, nothing equal before it, and `None` only when the byte
/// is absent.
pub proof fn lemma_find_byte(s: Seq<u8>, b: u8)
    ensures
        match find_byte(s, b) {
            Some(i) => 0 <= i < s.len() && s[i] == b && forall|j: int| 0 <= j < i ==> s[j] != b,
            None => forall|j: int| 0 <= j < s.len() ==> s[j] != b,
        },
    decreases s.len(),
{
    if s.len() > 0 && s[0] != b {
        lemma_find_byte(s.subrange(1, s.len() as int), b);
        assert forall|j: int| 1 <= j < s.len() implies s[j] == s.subrange(1, s.len() as int)[j
            - 1] by {}
    }
}

/// A first-occurrence description determines `find_byte`.
pub proof fn lemma_find_byte_from_witness(s: Seq<u8>, b: u8, r: Option<int>)
    requires
        match r {
            Some(i) => 0 <= i < s.len() && s[i] == b && forall|j: int| 0 <= j < i ==> s[j] != b,
            None => forall|j: int| 0 <= j < s.len() ==> s[j] != b,
        },
    ensures
        find_byte(s, b) == r,
{
    lemma_find_byte(s, b);
    match r {
        Some(i) => {
            match find_byte(s, b) {
                Some(k) => {
                    if k < i {
                        assert(s[k] != b);
                    }
                    if i < k {
                        assert(s[i] != b);
                    }
                },
                None => {
                    assert(s[i] != b);
                },
            }
        },
        None => {
            match find_byte(s, b) {
                Some(k) => {
                    assert(s[k] != b);
                },
                None => {},
            }
        },
    }
}

/// Relies on memchr::memchr: the index of the first occurrence of
/// `needle` in `haystack`, or `None` when the byte does not occur.
#[verifier::external_body]
fn memchr_first(needle: u8, haystack: &[u8]) -> (r: Option<usize>)
    ensures
        match r {
            Some(i) => i < haystack@.len() && haystack@[i as int] == needle && forall|j: int|
                0 <= j < i ==> haystack@[j] != needle,
            None => forall|j: int| 0 <= j < haystack@.len() ==> haystack@[j] != needle,
        },
{
    memchr::memchr(needle, haystack)
}

/// First occurrence of `b` in `s`, as `find_byte` describes it.
pub fn find_byte_in(s: &[u8], b: u8) -> (r: Option<usize>)
    ensures
        match r {
            Some(i) => find_byte(s@, b) == Some(i as int),
            None => find_byte(s@, b) is None,
        },
{
    let r = memchr_first(b, s);
    proof {
        match r {
            Some(i) => lemma_find_byte_from_witness(s@, b, Some(i as int)),
            None => lemma_find_byte_from_witness(s@, b, None),
        }
    }
    r
}

/// True when `pat` occurs in `s` starting at index `i`.
pub open spec fn match_at(s: Seq<u8>, pat: Seq<u8>, i: int) -> bool {
    0 <= i && i + pat.len() <= s.len() && s.subrange(i, i + pat.len() as int) == pat
}

/// Start index of the last occurrence of `pat` at or before `i`.
pub open spec fn rfind_from(s: Seq<u8>, pat: Seq<u8>, i: int) -> Option<int>
    decreases i + 1,
{
    if i < 0 {
        None
    } else if match_at(s, pat, i) {
        Some(i)
    } else {
        rfind_from(s, pat, i - 1)
    }
}

/// Start index of the last occurrence of `pat` in `s`, if any.
pub open spec fn rfind(s: Seq<u8>, pat: Seq<u8>) -> Option<int> {
    rfind_from(s, pat, s.len() - pat.len())
}

pub proof fn lemma_rfind_from(s: Seq<u8>, pat: Seq<u8>, i: int)
    requires
        i + pat.len() <= s.len(),
    ensures
        match rfind_from(s, pat, i) {
            Some(k) => k <= i && match_at(s, pat, k) && forall|j: int|
                k < j <= i ==> !match_at(s, pat, j),
            None => forall|j: int| 0 <= j <= i ==> !match_at(s, pat, j),
        },
    decreases i + 1,
{
    if i >= 0 && !match_at(s, pat, i) {
        lemma_rfind_from(s, pat, i - 1);
    }
}

pub proof fn lemma_rfind_from_some(s: Seq<u8>, pat: Seq<u8>, i: int)
    ensures
        match rfind_from(s, pat, i) {
            Some(k) => k <= i && match_at(s, pat, k),
            None => true,
        },
    decreases i + 1,
{
    if i >= 0 && !match_at(s, pat, i) {
        lemma_rfind_from_some(s, pat, i - 1);
    }
}

/// A last-occurrence description determines `rfind`.
pub proof fn lemma_rfind_from_witness(s: Seq<u8>, pat: Seq<u8>, r: Option<int>)
    requires
        match r {
            Some(i) => match_at(s, pat, i) && forall|j: int| j > i ==> !match_at(s, pat, j),
            None => forall|j: int| !match_at(s, pat, j),
        },
        pat.len() <= s.len(),
    ensures
        rfind(s, pat) == r,
{
    lemma_rfind_from(s, pat, s.len() - pat.len());
    match r {
        Some(i) => {
            match rfind(s, pat) {
                Some(k) => {
                    if k < i {
                        assert(!match_at(s, pat, i));
                    }
                    if i < k {
                        assert(!match_at(s, pat, k));
                    }
                },
                None => {
                    assert(!match_at(s, pat, i));
                },
            }
        },
        None => {
            match rfind(s, pat) {
                Some(k) => {
                    assert(!match_at(s, pat, k));
                },
                None => {},
            }
        },
    }
}

/// Relies on memchr::memmem::rfind: the start index of the last occurrence
/// of `needle` in `haystack`, or `None` when it does not occur.
#[verifier::external_body]
fn memmem_rfind(haystack: &[u8], needle: &[u8]) -> (r: Option<usize>)
    requires
        needle@.len() >= 1,
    ensures
        match r {
            Some(i) => i + needle@.len() <= haystack@.len() && haystack@.subrange(
                i as int,
                i + needle@.len(),
            ) == needle@ && forall|j: int|
                j > i ==> !(j + needle@.len() <= haystack@.len() && #[trigger] haystack@.subrange(
                    j,
                    j + needle@.len(),
                ) == needle@),
            None => forall|j: int|
                0 <= j ==> !(j + needle@.len() <= haystack@.len() && #[trigger] haystack@.subrange(
                    j,
                    j + needle@.len(),
                ) == needle@),
        },
{
    memchr::memmem::rfind(haystack, needle)
}

/// Start of the last occurrence of `pat` in `s`, as `rfind` describes it.
pub fn rfind_in(s: &[u8], pat: &[u8]) -> (r: Option<usize>)
    requires
        pat@.len() >= 1,
    ensures
        match r {
            Some(i) => rfind(s@, pat@) == Some(i as int),
            None => rfind(s@, pat@) is None,
        },
{
    let r = memmem_rfind(s, pat);
    proof {
        if pat@.len() <= s@.len() {
            match r {
                Some(i) => lemma_rfind_from_witness(s@, pat@, Some(i as int)),
                None => lemma_rfind_from_witness(s@, pat@, None),
            }
        } else {
            match rfind(s@, pat@) {
                Some(k) => {
                    lemma_rfind_from(s@, pat@, s@.len() - pat@.len());
                },
                None => {},
            }
        }
    }
    r
}

/// First index at or after `i` whose byte is not whitespace (or the end).
pub open spec fn skip_ws(s: Seq<u8>, i: int) -> int
    decreases s.len() - i,
{
    if !(0 <= i < s.len()) {
        i
    } else if is_ws(s[i]) {
        skip_ws(s, i + 1)
    } else {
        i
    }
}

pub proof fn lemma_skip_ws(s: Seq<u8>, i: int)
    requires
        0 <= i <= s.len(),
    ensures
        i <= skip_ws(s, i) <= s.len(),
        skip_ws(s, i) < s.len() ==> !is_ws(s[skip_ws(s, i)]),
        forall|j: int| i <= j < skip_ws(s, i) ==> is_ws(s[j]),
    decreases s.len() - i,
{
    if 0 <= i < s.len() && is_ws(s[i]) {
        lemma_skip_ws(s, i + 1);
    }
}

/// Start of the maximal whitespace-only suffix of `s`.
pub open spec fn ws_suffix_start(s: Seq<u8>) -> int
    decreases s.len(),
{
    if s.len() == 0 {
        0
    } else if is_ws(s[s.len() - 1]) {
        ws_suffix_start(s.take(s.len() - 1))
    } else {
        s.len() as int
    }
}

pub proof fn lemma_ws_suffix_start(s: Seq<u8>)
    ensures
        0 <= ws_suffix_start(s) <= s.len(),
        ws_suffix_start(s) > 0 ==> !is_ws(s[ws_suffix_start(s) - 1]),
        forall|j: int| ws_suffix_start(s) <= j < s.len() ==> is_ws(s[j]),
    decreases s.len(),
{
    if s.len() > 0 && is_ws(s[s.len() - 1]) {
        lemma_ws_suffix_start(s.take(s.len() - 1));
        assert forall|j: int| 0 <= j < s.len() - 1 implies s.take(s.len() - 1)[j] == s[j] by {}
    }
}

/// `s` with leading and trailing whitespace removed.
pub open spec fn trim(s: Seq<u8>) -> Seq<u8> {
    let a = skip_ws(s, 0);
    let b = ws_suffix_start(s);
    if a >= b {
        Seq::empty()
    } else {
        s.subrange(a, b)
    }
}

/// `s` with leading whitespace removed.
pub open spec fn trim_start(s: Seq<u8>) -> Seq<u8> {
    s.subrange(skip_ws(s, 0), s.len() as int)
}

/// Exec scan to the first non-whitespace index at or after `from`.
pub fn skip_ws_fwd(s: &[u8], from: usize) -> (r: usize)
    requires
        from <= s@.len(),
    ensures
        r == skip_ws(s@, from as int),
        from <= r <= s@.len(),
{
    proof {
        lemma_skip_ws(s@, from as int);
    }
    let mut i = from;
    while i < s.len() && byte_is_ws(s[i])
        invariant
            from <= i <= s@.len(),
            skip_ws(s@, from as int) == skip_ws(s@, i as int),
        decreases s@.len() - i,
    {
        i = i + 1;
    }
    i
}

/// Exec scan to the start of the maximal whitespace suffix of `s`.
pub fn ws_suffix_start_in(s: &[u8]) -> (r: usize)
    ensures
        r == ws_suffix_start(s@),
        0 <= r <= s@.len(),
{
    proof {
        lemma_ws_suffix_start(s@);
        assert(s@.take(s@.len() as int) =~= s@);
    }
    let mut i = s.len();
    while i > 0 && byte_is_ws(s[i - 1])
        invariant
            0 <= i <= s@.len(),
            ws_suffix_start(s@) == ws_suffix_start(s@.take(i as int)),
        decreases i,
    {
        proof {
            assert(s@.take(i as int).len() == i);
            assert(s@.take(i as int)[i - 1] == s@[i - 1]);
            assert(s@.take(i as int).take(i - 1) =~= s@.take(i - 1));
        }
        i = i - 1;
    }
    proof {
        assert(s@.take(i as int).len() == i);
        if i > 0 {
            assert(s@.take(i as int)[i - 1] == s@[i - 1]);
        }
    }
    i
}

/// True when every byte of `s` in `[lo, hi)` is a decimal digit.
pub open spec fn all_digits(s: Seq<u8>, lo: int, hi: int) -> bool {
    forall|j: int| lo <= j < hi ==> is_digit(s[j])
}

/// Exec check that `s[lo..hi]` is all decimal digits.
pub fn check_all_digits(s: &[u8], lo: usize, hi: usize) -> (r: bool)
    requires
        lo <= hi <= s@.len(),
    ensures
        r == all_digits(s@, lo as int, hi as int),
{
    let mut i = lo;
    while i < hi
        invariant
            lo <= i <= hi <= s@.len(),
            forall|j: int| lo <= j < i ==> is_digit(s@[j]),
        decreases hi - i,
    {
        if !byte_is_digit(s[i]) {
            return false;
        }
        i = i + 1;
    }
    true
}

/// First index at or after `i` whose byte is not a macro-name byte.
pub open spec fn name_run_end(s: Seq<u8>, i: int) -> int
    decreases s.len() - i,
{
    if !(0 <= i < s.len()) {
        i
    } else if is_name_byte(s[i]) {
        name_run_end(s, i + 1)
    } else {
        i
    }
}

pub proof fn lemma_name_run_end(s: Seq<u8>, i: int)
    requires
        0 <= i <= s.len(),
    ensures
        i <= name_run_end(s, i) <= s.len(),
    decreases s.len() - i,
{
    if 0 <= i < s.len() && is_name_byte(s[i]) {
        lemma_name_run_end(s, i + 1);
    }
}

/// Exec scan to the end of the macro-name byte run starting at `from`.
pub fn name_run_end_in(s: &[u8], from: usize) -> (r: usize)
    requires
        from <= s@.len(),
    ensures
        r == name_run_end(s@, from as int),
        from <= r <= s@.len(),
{
    proof {
        lemma_name_run_end(s@, from as int);
    }
    let mut i = from;
    while i < s.len() && byte_is_name(s[i])
        invariant
            from <= i <= s@.len(),
            name_run_end(s@, from as int) == name_run_end(s@, i as int),
        decreases s@.len() - i,
    {
        i = i + 1;
    }
    i
}

/// The name run is unchanged by cutting the input anywhere past its end.
pub proof fn lemma_name_run_end_take(s: Seq<u8>, i: int, n: int)
    requires
        0 <= i <= s.len(),
        name_run_end(s, i) < n <= s.len(),
        i <= n,
    ensures
        name_run_end(s.take(n), i) == name_run_end(s, i),
    decreases s.len() - i,
{
    lemma_name_run_end(s, i);
    assert(s.take(n).len() == n);
    if 0 <= i < s.len() && is_name_byte(s[i]) {
        assert(s.take(n)[i] == s[i]);
        lemma_name_run_end_take(s, i + 1, n);
    } else {
        if i < n {
            assert(s.take(n)[i] == s[i]);
        }
    }
}

/// First index at or after `i` whose byte is not a digit.
pub open spec fn digit_run_end(s: Seq<u8>, i: int) -> int
    decreases s.len() - i,
{
    if !(0 <= i < s.len()) {
        i
    } else if is_digit(s[i]) {
        digit_run_end(s, i + 1)
    } else {
        i
    }
}

pub proof fn lemma_digit_run_end(s: Seq<u8>, i: int)
    requires
        0 <= i <= s.len(),
    ensures
        i <= digit_run_end(s, i) <= s.len(),
        all_digits(s, i, digit_run_end(s, i)),
    decreases s.len() - i,
{
    if 0 <= i < s.len() && is_digit(s[i]) {
        lemma_digit_run_end(s, i + 1);
    }
}

/// Exec scan to the end of the digit run starting at `from`.
pub fn digit_run_end_in(s: &[u8], from: usize) -> (r: usize)
    requires
        from <= s@.len(),
    ensures
        r == digit_run_end(s@, from as int),
        from <= r <= s@.len(),
{
    proof {
        lemma_digit_run_end(s@, from as int);
    }
    let mut i = from;
    while i < s.len() && byte_is_digit(s[i])
        invariant
            from <= i <= s@.len(),
            digit_run_end(s@, from as int) == digit_run_end(s@, i as int),
        decreases s@.len() - i,
    {
        i = i + 1;
    }
    i
}

/// Value of the decimal digit run `s[lo..hi)`.
pub open spec fn num_val(s: Seq<u8>, lo: int, hi: int) -> int
    decreases hi - lo,
{
    if lo >= hi {
        0
    } else {
        num_val(s, lo, hi - 1) * 10 + (s[hi - 1] - 48)
    }
}

pub open spec fn pow10(n: nat) -> int
    decreases n,
{
    if n == 0 {
        1
    } else {
        10 * pow10((n - 1) as nat)
    }
}

pub proof fn lemma_num_val_bound(s: Seq<u8>, lo: int, hi: int)
    requires
        0 <= lo <= hi <= s.len(),
        all_digits(s, lo, hi),
    ensures
        0 <= num_val(s, lo, hi) < pow10((hi - lo) as nat),
    decreases hi - lo,
{
    if lo < hi {
        lemma_num_val_bound(s, lo, hi - 1);
    }
}

/// Exec evaluation of a digit run of at most 10 digits.
pub fn num_val_in(s: &[u8], lo: usize, hi: usize) -> (r: u64)
    requires
        lo <= hi <= s@.len(),
        hi - lo <= 10,
        all_digits(s@, lo as int, hi as int),
    ensures
        r == num_val(s@, lo as int, hi as int),
{
    proof {
        lemma_num_val_bound(s@, lo as int, hi as int);
    }
    let mut i = lo;
    let mut acc: u64 = 0;
    while i < hi
        invariant
            lo <= i <= hi <= s@.len(),
            hi - lo <= 10,
            all_digits(s@, lo as int, hi as int),
            acc == num_val(s@, lo as int, i as int),
            acc < pow10((i - lo) as nat),
        decreases hi - i,
    {
        proof {
            lemma_num_val_bound(s@, lo as int, i as int);
            assert(pow10(0) == 1);
            assert(pow10(1) == 10);
            assert(pow10(2) == 100);
            assert(pow10(3) == 1000);
            assert(pow10(4) == 10000);
            assert(pow10(5) == 100000);
            assert(pow10(6) == 1000000);
            assert(pow10(7) == 10000000);
            assert(pow10(8) == 100000000);
            assert(pow10(9) == 1000000000);
            assert(pow10(10) == 10000000000);
        }
        let d = s[i];
        assert(is_digit(s@[i as int]));
        acc = acc * 10 + ((d - 48) as u64);
        i = i + 1;
    }
    acc
}

/// An owned copy of `s[lo..hi]`.
pub fn sub_vec(s: &[u8], lo: usize, hi: usize) -> (r: Vec<u8>)
    requires
        lo <= hi <= s@.len(),
    ensures
        r@ == s@.subrange(lo as int, hi as int),
{
    let mut v: Vec<u8> = Vec::new();
    let mut i = lo;
    while i < hi
        invariant
            lo <= i <= hi <= s@.len(),
            v@ == s@.subrange(lo as int, i as int),
        decreases hi - i,
    {
        v.push(s[i]);
        proof {
            assert(v@ =~= s@.subrange(lo as int, i + 1));
        }
        i = i + 1;
    }
    v
}

/// The subslice `s[lo..hi]`.
pub fn sub_slice<'a>(s: &'a [u8], lo: usize, hi: usize) -> (r: &'a [u8])
    requires
        lo <= hi <= s@.len(),
    ensures
        r@ == s@.subrange(lo as int, hi as int),
{
    slice_subrange(s, lo, hi)
}

} // verus!
