//! Byte-level text inspection for progress markers and instance directories.
//!
//! The progress marker is free text read from the game; the core only ever
//! asks whether it contains one of a few fixed substrings and, in the
//! `Preview` state, what decimal percentage follows the first comma.  The
//! instance directory string carries the instance number between the literal
//! `RSG ` and the next `/`.

use vstd::prelude::*;

verus! {

/// True when `n` occurs as a contiguous run inside `h`.
pub open spec fn contains_seq(h: Seq<u8>, n: Seq<u8>) -> bool {
    exists|i: int| 0 <= i <= h.len() - n.len() && #[trigger] h.subrange(i, i + n.len()) == n
}

/// Index of the first occurrence of `b` in `s`; `s.len()` when absent.
pub open spec fn idx_of(s: Seq<u8>, b: u8) -> int
    decreases s.len(),
{
    if s.len() == 0 {
        0
    } else if s[0] == b {
        0
    } else {
        1 + idx_of(s.drop_first(), b)
    }
}

pub proof fn lemma_idx_of(s: Seq<u8>, b: u8)
    ensures
        0 <= idx_of(s, b) <= s.len(),
        idx_of(s, b) < s.len() ==> s[idx_of(s, b)] == b,
        forall|j: int| 0 <= j < idx_of(s, b) ==> s[j] != b,
    decreases s.len(),
{
    if s.len() == 0 {
    } else if s[0] == b {
    } else {
        lemma_idx_of(s.drop_first(), b);
        assert forall|j: int| 0 <= j < idx_of(s, b) implies s[j] != b by {
            if j > 0 {
                assert(s.drop_first()[j - 1] == s[j]);
            }
        }
    }
}

/// Index of the first match of `n` inside `h`; `-1` when `n` does not occur.
pub open spec fn find_seq(h: Seq<u8>, n: Seq<u8>) -> int
    decreases h.len(),
{
    if n.len() == 0 {
        0
    } else if h.len() < n.len() {
        -1
    } else if h.subrange(0, n.len() as int) == n {
        0
    } else {
        let r = find_seq(h.drop_first(), n);
        if r < 0 {
            -1
        } else {
            1 + r
        }
    }
}

pub proof fn lemma_find_seq(h: Seq<u8>, n: Seq<u8>)
    ensures
        find_seq(h, n) >= 0 ==> find_seq(h, n) + n.len() <= h.len()
            && h.subrange(find_seq(h, n), find_seq(h, n) + n.len()) == n,
        forall|j: int|
            0 <= j < find_seq(h, n) ==> #[trigger] h.subrange(j, j + n.len()) != n,
        find_seq(h, n) == -1 ==> forall|j: int|
            0 <= j <= h.len() - n.len() ==> #[trigger] h.subrange(j, j + n.len()) != n,
    decreases h.len(),
{
    if n.len() == 0 {
        assert(h.subrange(0, 0) =~= n);
    } else if h.len() < n.len() {
    } else if h.subrange(0, n.len() as int) == n {
    } else {
        lemma_find_seq(h.drop_first(), n);
        assert forall|j: int| 1 <= j <= h.len() - n.len() implies h.drop_first().subrange(
            j - 1,
            j - 1 + n.len(),
        ) =~= #[trigger] h.subrange(j, j + n.len()) by {}
        let r = find_seq(h.drop_first(), n);
        if r >= 0 {
            assert(h.drop_first().subrange(r, r + n.len()) =~= h.subrange(r + 1, r + 1 + n.len()))
                by {
                assert(forall|k: int|
                    0 <= k < n.len() ==> #[trigger] h.drop_first()[r + k] == h[r + 1 + k]);
            }
        }
    }
}

/// Decimal value of a digit string, reading left to right.
pub open spec fn dec_val(s: Seq<u8>) -> int
    decreases s.len(),
{
    if s.len() == 0 {
        0
    } else {
        dec_val(s.drop_last()) * 10 + (s.last() - 48)
    }
}

pub open spec fn is_digit(b: u8) -> bool {
    48 <= b <= 57
}

pub open spec fn all_digits(s: Seq<u8>) -> bool {
    forall|i: int| 0 <= i < s.len() ==> is_digit(#[trigger] s[i])
}

/// What `u32` parsing of a raw field yields: the decimal value when the field
/// is a non-empty run of digits whose value fits, nothing otherwise.
pub open spec fn spec_parse_u32(s: Seq<u8>) -> Option<u32> {
    if s.len() == 0 || !all_digits(s) || dec_val(s) > u32::MAX {
        None
    } else {
        Some(dec_val(s) as u32)
    }
}

proof fn lemma_dec_val_nonneg(s: Seq<u8>)
    requires
        all_digits(s),
    ensures
        dec_val(s) >= 0,
    decreases s.len(),
{
    if s.len() > 0 {
        assert(all_digits(s.drop_last()));
        lemma_dec_val_nonneg(s.drop_last());
    }
}

proof fn lemma_dec_val_prefix_le(s: Seq<u8>, i: int)
    requires
        all_digits(s),
        0 <= i <= s.len(),
    ensures
        dec_val(s.subrange(0, i)) <= dec_val(s),
    decreases s.len() - i,
{
    if i == s.len() {
        assert(s.subrange(0, i) =~= s);
    } else {
        lemma_dec_val_prefix_le(s, i + 1);
        let p = s.subrange(0, i + 1);
        assert(p.drop_last() =~= s.subrange(0, i));
        assert(all_digits(s.subrange(0, i)));
        lemma_dec_val_nonneg(s.subrange(0, i));
        assert(dec_val(p) == dec_val(s.subrange(0, i)) * 10 + (s[i] - 48));
    }
}

/// Parses a whole field as a decimal `u32`; mirrors standard integer parsing
/// with the additional rule that values above `u32::MAX` are rejected.
#[verifier::loop_isolation(false)]
pub fn parse_u32_digits(field: &[u8]) -> (r: Option<u32>)
    ensures
        r == spec_parse_u32(field@),
{
    if field.len() == 0 {
        return None;
    }
    let mut acc: u64 = 0;
    let mut i: usize = 0;
    while i < field.len()
        invariant
            0 < field@.len(),
            i <= field@.len(),
            all_digits(field@.subrange(0, i as int)),
            acc == dec_val(field@.subrange(0, i as int)),
            acc <= u32::MAX,
        decreases field@.len() - i,
    {
        let b = field[i];
        if b < 48 || b > 57 {
            assert(!all_digits(field@)) by {
                assert(!is_digit(field@[i as int]));
            }
            return None;
        }
        proof {
            let p = field@.subrange(0, i + 1);
            assert(p.drop_last() =~= field@.subrange(0, i as int));
        }
        acc = acc * 10 + ((b - 48) as u64);
        if acc > u32::MAX as u64 {
            proof {
                if all_digits(field@) {
                    lemma_dec_val_prefix_le(field@, i + 1);
                }
            }
            return None;
        }
        i += 1;
    }
    proof {
        assert(field@.subrange(0, field@.len() as int) =~= field@);
    }
    Some(acc as u32)
}

/// Whether the byte run `n` occurs inside `h`.
#[verifier::loop_isolation(false)]
pub fn contains_subslice(h: &[u8], n: &[u8]) -> (r: bool)
    ensures
        r == contains_seq(h@, n@),
{
    let h_len: usize = h.len();
    let n_len: usize = n.len();
    if n_len == 0 {
        assert(contains_seq(h@, n@)) by {
            assert(h@.subrange(0, 0 + n@.len() as int) =~= n@);
        }
        return true;
    }
    if n_len > h_len {
        return false;
    }
    let mut i: usize = 0;
    while i <= h_len - n_len
        invariant
            n@.len() <= h@.len(),
            i <= h@.len() - n@.len() + 1,
            forall|j: int| 0 <= j < i ==> #[trigger] h@.subrange(j, j + n@.len()) != n@,
        decreases h@.len() - n@.len() + 1 - i,
    {
        if match_at(h, n, i) {
            assert(contains_seq(h@, n@)) by {
                assert(h@.subrange(i as int, i + n@.len()) == n@);
            }
            return true;
        }
        i += 1;
    }
    false
}

/// Whether `n` matches the bytes of `h` starting at `i`.
#[verifier::loop_isolation(false)]
fn match_at(h: &[u8], n: &[u8], i: usize) -> (r: bool)
    requires
        i + n@.len() <= h@.len(),
    ensures
        r == (h@.subrange(i as int, i + n@.len()) == n@),
{
    let h_len: usize = h.len();
    let n_len: usize = n.len();
    let mut k: usize = 0;
    while k < n_len
        invariant
            i + n@.len() <= h@.len(),
            k <= n@.len(),
            forall|t: int| 0 <= t < k ==> h@[i + t] == n@[t],
        decreases n@.len() - k,
    {
        if h[i + k] != n[k] {
            assert(h@.subrange(i as int, i + n@.len()) != n@) by {
                assert(h@.subrange(i as int, i + n@.len())[k as int] == h@[i + k]);
            }
            return false;
        }
        k += 1;
    }
    assert(h@.subrange(i as int, i + n@.len()) =~= n@);
    true
}

/// Index of the first occurrence of `b` in `h`; the length of `h` when absent.
#[verifier::loop_isolation(false)]
pub fn find_byte(h: &[u8], b: u8) -> (r: usize)
    ensures
        r == idx_of(h@, b),
{
    proof {
        lemma_idx_of(h@, b);
    }
    let mut i: usize = 0;
    while i < h.len()
        invariant
            i <= h@.len(),
            forall|j: int| 0 <= j < i ==> h@[j] != b,
        decreases h@.len() - i,
    {
        if h[i] == b {
            proof {
                if i < idx_of(h@, b) {
                    assert(h@[i as int] != b);
                }
            }
            return i;
        }
        i += 1;
    }
    proof {
        if idx_of(h@, b) < h@.len() {
            assert(h@[idx_of(h@, b)] != b);
        }
    }
    i
}

/// Index of the first match of `n` inside `h`, when there is one.
#[verifier::loop_isolation(false)]
pub fn find_subslice(h: &[u8], n: &[u8]) -> (r: Option<usize>)
    ensures
        match r {
            Some(i) => i == find_seq(h@, n@),
            None => find_seq(h@, n@) == -1,
        },
{
    proof {
        lemma_find_seq(h@, n@);
    }
    let h_len: usize = h.len();
    let n_len: usize = n.len();
    if n_len == 0 {
        return Some(0);
    }
    if n_len > h_len {
        return None;
    }
    let mut i: usize = 0;
    while i <= h_len - n_len
        invariant
            n@.len() <= h@.len(),
            i <= h@.len() - n@.len() + 1,
            forall|j: int| 0 <= j < i ==> #[trigger] h@.subrange(j, j + n@.len()) != n@,
        decreases h@.len() - n@.len() + 1 - i,
    {
        if match_at(h, n, i) {
            proof {
                if find_seq(h@, n@) == -1 {
                    assert(h@.subrange(i as int, i + n@.len()) != n@);
                } else if find_seq(h@, n@) < i {
                    assert(h@.subrange(find_seq(h@, n@), find_seq(h@, n@) + n@.len()) == n@);
                }
            }
            return Some(i);
        }
        i += 1;
    }
    proof {
        if find_seq(h@, n@) >= 0 {
            assert(h@.subrange(find_seq(h@, n@), find_seq(h@, n@) + n@.len()) == n@);
        }
    }
    None
}

/// The bytes of `"generating"`, the marker text that ends the `Resetting` state.
pub open spec fn generating_marker() -> Seq<u8> {
    seq![103u8, 101u8, 110u8, 101u8, 114u8, 97u8, 116u8, 105u8, 110u8, 103u8]
}

/// The bytes of `"previewing"`, the marker text that ends the `LoadingScreen`
/// state and that carries the percentage while in `Preview`.
pub open spec fn previewing_marker() -> Seq<u8> {
    seq![112u8, 114u8, 101u8, 118u8, 105u8, 101u8, 119u8, 105u8, 110u8, 103u8]
}

/// The bytes of `"inworld"`, the marker text that returns a previewing
/// instance to `Idle`.
pub open spec fn inworld_marker() -> Seq<u8> {
    seq![105u8, 110u8, 119u8, 111u8, 114u8, 108u8, 100u8]
}

/// The bytes of `"RSG "`, the run that precedes the instance number in an
/// instance directory path.
pub open spec fn rsg_prefix() -> Seq<u8> {
    seq![82u8, 83u8, 71u8, 32u8]
}

/// Whether the marker text contains `"generating"`.
pub fn marker_has_generating(m: &[u8]) -> (r: bool)
    ensures
        r == contains_seq(m@, generating_marker()),
{
    let n: [u8; 10] = [103u8, 101u8, 110u8, 101u8, 114u8, 97u8, 116u8, 105u8, 110u8, 103u8];
    proof {
        assert(n@ =~= generating_marker());
    }
    contains_subslice(m, n.as_slice())
}

/// Whether the marker text contains `"previewing"`.
pub fn marker_has_previewing(m: &[u8]) -> (r: bool)
    ensures
        r == contains_seq(m@, previewing_marker()),
{
    let n: [u8; 10] = [112u8, 114u8, 101u8, 118u8, 105u8, 101u8, 119u8, 105u8, 110u8, 103u8];
    proof {
        assert(n@ =~= previewing_marker());
    }
    contains_subslice(m, n.as_slice())
}

/// Whether the marker text contains `"inworld"`.
pub fn marker_has_inworld(m: &[u8]) -> (r: bool)
    ensures
        r == contains_seq(m@, inworld_marker()),
{
    let n: [u8; 7] = [105u8, 110u8, 119u8, 111u8, 114u8, 108u8, 100u8];
    proof {
        assert(n@ =~= inworld_marker());
    }
    contains_subslice(m, n.as_slice())
}

/// The bytes between the first comma of `m` and the following comma (or the
/// end of `m`): the percentage field of a `"previewing,<percent>"` marker.
pub open spec fn percent_field(m: Seq<u8>) -> Seq<u8> {
    let rest = m.subrange(idx_of(m, 44) + 1, m.len() as int);
    rest.subrange(0, idx_of(rest, 44))
}

/// The percentage a marker reports: the decimal value of the field after the
/// first comma, when that field is present, all digits, and fits a `u32`;
/// nothing otherwise (malformed markers carry no percent data).
pub open spec fn spec_parse_percent(m: Seq<u8>) -> Option<u32> {
    if idx_of(m, 44) >= m.len() {
        None
    } else {
        spec_parse_u32(percent_field(m))
    }
}

/// Extracts the percentage field of a progress marker.
pub fn parse_percent(m: &[u8]) -> (r: Option<u32>)
    ensures
        r == spec_parse_percent(m@),
{
    proof {
        lemma_idx_of(m@, 44);
    }
    let c1 = find_byte(m, 44);
    if c1 == m.len() {
        return None;
    }
    let rest = vstd::slice::slice_subrange(m, c1 + 1, m.len());
    proof {
        lemma_idx_of(rest@, 44);
    }
    let c2 = find_byte(rest, 44);
    let field = vstd::slice::slice_subrange(rest, 0, c2);
    parse_u32_digits(field)
}

/// The instance number an instance directory path carries: the decimal run
/// between the first `"RSG "` and the next `/`, when both are present and the
/// run parses as a `u32`; nothing otherwise.
pub open spec fn spec_instance_num(d: Seq<u8>) -> Option<u32> {
    let a = find_seq(d, rsg_prefix());
    if a < 0 {
        None
    } else {
        let after = d.subrange(a + rsg_prefix().len() as int, d.len() as int);
        if idx_of(after, 47) >= after.len() {
            None
        } else {
            spec_parse_u32(after.subrange(0, idx_of(after, 47)))
        }
    }
}

/// Reads the instance number out of an instance directory path.
pub fn get_instance_num(instance_dir: &[u8]) -> (r: Option<u32>)
    ensures
        r == spec_instance_num(instance_dir@),
{
    let d_len: usize = instance_dir.len();
    let needle: [u8; 4] = [82u8, 83u8, 71u8, 32u8];
    proof {
        assert(needle@ =~= rsg_prefix());
        lemma_find_seq(instance_dir@, rsg_prefix());
    }
    let a = match find_subslice(instance_dir, needle.as_slice()) {
        Some(a) => a,
        None => {
            return None;
        },
    };
    let after = vstd::slice::slice_subrange(instance_dir, a + 4, d_len);
    proof {
        lemma_idx_of(after@, 47);
    }
    let s = find_byte(after, 47);
    if s == after.len() {
        return None;
    }
    let field = vstd::slice::slice_subrange(after, 0, s);
    parse_u32_digits(field)
}

} // verus!

