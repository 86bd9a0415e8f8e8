//! Escape-sequence filter: removes terminal control sequences of the form
//! `ESC [ <parameters> <intermediates> <final byte>` (the CSI grammar) from a
//! byte fragment, and trims surrounding Unicode whitespace.
//!
//! The filter works on the UTF-8 encoded bytes of a fragment: all bytes of a
//! control sequence lie below `0x80`, so no multi-byte character is ever
//! split, and the trim matches the Unicode white-space characters in their
//! UTF-8 encodings.

use vstd::prelude::*;
use vstd::utf8::{
    is_continuation_byte, length_of_first_scalar, pop_first_scalar, valid_first_scalar, valid_utf8,
};

verus! {

/// The escape byte that introduces a control sequence.
pub const ESC: u8 = 0x1b;

/// The byte after `ESC` that makes the sequence a CSI sequence: `[`.
pub const CSI_OPEN: u8 = 0x5b;

/// Parameter byte of a CSI sequence: `0` through `?`.
pub open spec fn is_csi_param(b: u8) -> bool {
    0x30 <= b && b <= 0x3f
}

/// Intermediate byte of a CSI sequence: space through `/`.
pub open spec fn is_csi_inter(b: u8) -> bool {
    0x20 <= b && b <= 0x2f
}

/// Final byte of a CSI sequence: `@` through `~`.
pub open spec fn is_csi_final(b: u8) -> bool {
    0x40 <= b && b <= 0x7e
}

/// ASCII whitespace: space, tab, line feed, vertical tab, form feed,
/// carriage return — the one-byte encodings of Unicode white space.
pub open spec fn is_blank(b: u8) -> bool {
    b == 0x20 || (0x09 <= b && b <= 0x0d)
}

/// Length of the UTF-8 encoding of a Unicode white-space character standing
/// at the front of `s`, or `0` when none does. Besides the ASCII blanks the
/// set holds next line, no-break space, ogham space mark, the en-quad through
/// hair-space run, line and paragraph separators, narrow no-break space,
/// medium mathematical space, and ideographic space.
pub open spec fn ws_prefix_len(s: Seq<u8>) -> int {
    if s.len() >= 1 && is_blank(s[0]) {
        1
    } else if s.len() >= 2 && s[0] == 0xc2 && (s[1] == 0x85 || s[1] == 0xa0) {
        2
    } else if s.len() >= 3 && s[0] == 0xe1 && s[1] == 0x9a && s[2] == 0x80 {
        3
    } else if s.len() >= 3 && s[0] == 0xe2 && s[1] == 0x80 && ((0x80 <= s[2] && s[2] <= 0x8a)
        || s[2] == 0xa8 || s[2] == 0xa9 || s[2] == 0xaf) {
        3
    } else if s.len() >= 3 && s[0] == 0xe2 && s[1] == 0x81 && s[2] == 0x9f {
        3
    } else if s.len() >= 3 && s[0] == 0xe3 && s[1] == 0x80 && s[2] == 0x80 {
        3
    } else {
        0
    }
}

/// Length of the UTF-8 encoding of a Unicode white-space character standing
/// at the back of `s`, or `0` when none does. The longest window is tried
/// first; the encodings make the choice unambiguous on valid UTF-8, since a
/// lead byte can never stand inside another character.
pub open spec fn ws_suffix_len(s: Seq<u8>) -> int {
    let n = s.len() as int;
    if n >= 3 && ws_prefix_len(s.skip(n - 3)) == 3 {
        3
    } else if n >= 2 && ws_prefix_len(s.skip(n - 2)) == 2 {
        2
    } else if n >= 1 && is_blank(s[n - 1]) {
        1
    } else {
        0
    }
}

/// Length of the longest prefix of `s` made of CSI parameter bytes.
pub open spec fn param_run_len(s: Seq<u8>) -> int
    decreases s.len(),
{
    if s.len() > 0 && is_csi_param(s[0]) {
        1 + param_run_len(s.drop_first())
    } else {
        0
    }
}

/// Length of the longest prefix of `s` made of CSI intermediate bytes.
pub open spec fn inter_run_len(s: Seq<u8>) -> int
    decreases s.len(),
{
    if s.len() > 0 && is_csi_inter(s[0]) {
        1 + inter_run_len(s.drop_first())
    } else {
        0
    }
}

/// Length of the CSI sequence standing at the front of `s`, or `0` when none
/// does. A sequence is `ESC [`, any run of parameter bytes, any run of
/// intermediate bytes, and one final byte.
pub open spec fn csi_len(s: Seq<u8>) -> int {
    if s.len() >= 2 && s[0] == ESC && s[1] == CSI_OPEN {
        let p = param_run_len(s.skip(2));
        let m = inter_run_len(s.skip(2 + p));
        if 2 + p + m < s.len() && is_csi_final(s[2 + p + m]) {
            2 + p + m + 1
        } else {
            0
        }
    } else {
        0
    }
}

proof fn lemma_param_run_len_bounds(s: Seq<u8>)
    ensures
        0 <= param_run_len(s) <= s.len(),
        0 <= inter_run_len(s) <= s.len(),
    decreases s.len(),
{
    if s.len() > 0 {
        lemma_param_run_len_bounds(s.drop_first());
    }
}

/// The length of a front CSI sequence is at least three bytes and at most the
/// whole fragment.
pub proof fn lemma_csi_len_bounds(s: Seq<u8>)
    ensures
        csi_len(s) == 0 || (3 <= csi_len(s) <= s.len()),
{
    if s.len() >= 2 && s[0] == ESC && s[1] == CSI_OPEN {
        lemma_param_run_len_bounds(s.skip(2));
        let p = param_run_len(s.skip(2));
        lemma_param_run_len_bounds(s.skip(2 + p));
    }
}

/// The fragment with every control sequence of a single left-to-right pass
/// removed: at each position, either a whole CSI sequence is dropped or one
/// byte is kept.
pub open spec fn strip_csi_spec(s: Seq<u8>) -> Seq<u8>
    decreases s.len(),
{
    let l = csi_len(s);
    if 1 <= l && l <= s.len() {
        strip_csi_spec(s.skip(l))
    } else if s.len() > 0 {
        seq![s[0]] + strip_csi_spec(s.drop_first())
    } else {
        seq![]
    }
}

/// `s` without its leading white space, one encoded character at a time.
pub open spec fn drop_leading_ws(s: Seq<u8>) -> Seq<u8>
    decreases s.len(),
{
    let l = ws_prefix_len(s);
    if 1 <= l && l <= s.len() {
        drop_leading_ws(s.skip(l))
    } else {
        s
    }
}

/// `s` without its trailing white space, one encoded character at a time.
pub open spec fn drop_trailing_ws(s: Seq<u8>) -> Seq<u8>
    decreases s.len(),
{
    let l = ws_suffix_len(s);
    if 1 <= l && l <= s.len() {
        drop_trailing_ws(s.take(s.len() - l))
    } else {
        s
    }
}

/// `s` without surrounding Unicode whitespace.
pub open spec fn trim_spec(s: Seq<u8>) -> Seq<u8> {
    drop_trailing_ws(drop_leading_ws(s))
}

/// The cleaned form of a fragment: control sequences removed, then
/// surrounding whitespace trimmed.
pub open spec fn clean_spec(s: Seq<u8>) -> Seq<u8> {
    trim_spec(strip_csi_spec(s))
}

/// Length of the CSI sequence starting at position `from` of `input`, or `0`
/// when none starts there.
fn csi_match_at(input: &[u8], from: usize) -> (l: usize)
    requires
        from <= input@.len(),
    ensures
        l as int == csi_len(input@.skip(from as int)),
{
    let ghost s = input@.skip(from as int);
    let n = input.len();
    if n - from < 2 || input[from] != ESC || input[from + 1] != CSI_OPEN {
        assert(csi_len(s) == 0);
        return 0;
    }
    let mut j = from + 2;
    while j < n && 0x30 <= input[j] && input[j] <= 0x3f
        invariant
            from + 2 <= j <= n,
            n == input@.len(),
            param_run_len(input@.skip(from + 2)) == j - (from + 2) + param_run_len(
                input@.skip(j as int),
            ),
        decreases n - j,
    {
        proof {
            assert(input@.skip(j as int).drop_first() =~= input@.skip(j + 1));
        }
        j = j + 1;
    }
    assert(param_run_len(input@.skip(from + 2)) == j - (from + 2));
    let ghost p = param_run_len(input@.skip(from + 2));
    let mut k = j;
    while k < n && 0x20 <= input[k] && input[k] <= 0x2f
        invariant
            j <= k <= n,
            n == input@.len(),
            inter_run_len(input@.skip(j as int)) == k - j + inter_run_len(input@.skip(k as int)),
        decreases n - k,
    {
        proof {
            assert(input@.skip(k as int).drop_first() =~= input@.skip(k + 1));
        }
        k = k + 1;
    }
    assert(inter_run_len(input@.skip(j as int)) == k - j);
    proof {
        assert(s.skip(2) =~= input@.skip(from + 2));
        assert(s.skip(2 + p) =~= input@.skip(j as int));
        assert(2 + (j - from - 2) + (k - j) == k - from);
        if k < n {
            assert(s[k - from] == input@[k as int]);
        }
    }
    if k < n && 0x40 <= input[k] && input[k] <= 0x7e {
        k + 1 - from
    } else {
        0
    }
}

/// Removes every CSI control sequence found in one left-to-right pass,
/// leaving all other bytes in order.
pub fn strip_csi(input: &[u8]) -> (out: Vec<u8>)
    ensures
        out@ == strip_csi_spec(input@),
{
    let mut out: Vec<u8> = Vec::new();
    let mut i: usize = 0;
    proof {
        assert(input@.skip(0) =~= input@);
    }
    while i < input.len()
        invariant
            i <= input@.len(),
            strip_csi_spec(input@) == out@ + strip_csi_spec(input@.skip(i as int)),
        decreases input@.len() - i,
    {
        let l = csi_match_at(input, i);
        proof {
            lemma_csi_len_bounds(input@.skip(i as int));
        }
        if l > 0 {
            proof {
                assert(input@.skip(i as int).skip(l as int) =~= input@.skip(i + l));
            }
            i = i + l;
        } else {
            let b = input[i];
            out.push(b);
            proof {
                assert(input@.skip(i as int).drop_first() =~= input@.skip(i + 1));
                assert(out@ + strip_csi_spec(input@.skip(i + 1)) =~= strip_csi_spec(input@));
            }
            i = i + 1;
        }
    }
    proof {
        assert(input@.skip(i as int) =~= Seq::<u8>::empty());
        assert(out@ =~= strip_csi_spec(input@));
    }
    out
}

/// Length of the white-space encoding standing at position `from` of
/// `input`, or `0` when none does.
fn ws_at_front(input: &[u8], from: usize) -> (l: usize)
    requires
        from <= input@.len(),
    ensures
        l as int == ws_prefix_len(input@.skip(from as int)),
{
    let ghost s = input@.skip(from as int);
    let n = input.len();
    proof {
        assert(s.len() == n - from);
        if n - from >= 1 {
            assert(s[0] == input@[from as int]);
        }
        if n - from >= 2 {
            assert(s[1] == input@[from + 1]);
        }
        if n - from >= 3 {
            assert(s[2] == input@[from + 2]);
        }
    }
    if n - from >= 1 && (input[from] == 0x20 || (0x09 <= input[from] && input[from] <= 0x0d)) {
        1
    } else if n - from >= 2 && input[from] == 0xc2 && (input[from + 1] == 0x85 || input[from + 1]
        == 0xa0) {
        2
    } else if n - from >= 3 && input[from] == 0xe1 && input[from + 1] == 0x9a && input[from + 2]
        == 0x80 {
        3
    } else if n - from >= 3 && input[from] == 0xe2 && input[from + 1] == 0x80 && ((0x80 <= input[from
        + 2] && input[from + 2] <= 0x8a) || input[from + 2] == 0xa8 || input[from + 2] == 0xa9
        || input[from + 2] == 0xaf) {
        3
    } else if n - from >= 3 && input[from] == 0xe2 && input[from + 1] == 0x81 && input[from + 2]
        == 0x9f {
        3
    } else if n - from >= 3 && input[from] == 0xe3 && input[from + 1] == 0x80 && input[from + 2]
        == 0x80 {
        3
    } else {
        0
    }
}

/// Length of the white-space encoding ending at position `hi` of `input`,
/// within the window starting at `lo`, or `0` when none does.
fn ws_at_back(input: &[u8], lo: usize, hi: usize) -> (l: usize)
    requires
        lo <= hi <= input@.len(),
    ensures
        l as int == ws_suffix_len(input@.subrange(lo as int, hi as int)),
{
    let ghost t = input@.subrange(lo as int, hi as int);
    let m = hi - lo;
    proof {
        if m >= 3 {
            assert(t.skip(m - 3) =~= input@.subrange(hi - 3, hi as int));
            assert(t.skip(m - 3)[0] == input@[hi - 3]);
            assert(t.skip(m - 3)[1] == input@[hi - 2]);
            assert(t.skip(m - 3)[2] == input@[hi - 1]);
        }
        if m >= 2 {
            assert(t.skip(m - 2) =~= input@.subrange(hi - 2, hi as int));
            assert(t.skip(m - 2)[0] == input@[hi - 2]);
            assert(t.skip(m - 2)[1] == input@[hi - 1]);
        }
        if m >= 1 {
            assert(t[m - 1] == input@[hi - 1]);
        }
    }
    if m >= 3 && ((input[hi - 3] == 0xe1 && input[hi - 2] == 0x9a && input[hi - 1] == 0x80) || (
    input[hi - 3] == 0xe2 && input[hi - 2] == 0x80 && ((0x80 <= input[hi - 1] && input[hi - 1]
        <= 0x8a) || input[hi - 1] == 0xa8 || input[hi - 1] == 0xa9 || input[hi - 1] == 0xaf)) || (
    input[hi - 3] == 0xe2 && input[hi - 2] == 0x81 && input[hi - 1] == 0x9f) || (input[hi - 3]
        == 0xe3 && input[hi - 2] == 0x80 && input[hi - 1] == 0x80)) {
        3
    } else if m >= 2 && input[hi - 2] == 0xc2 && (input[hi - 1] == 0x85 || input[hi - 1] == 0xa0) {
        2
    } else if m >= 1 && (input[hi - 1] == 0x20 || (0x09 <= input[hi - 1] && input[hi - 1] <= 0x0d)) {
        1
    } else {
        0
    }
}

/// Removes Unicode whitespace, matched in its UTF-8 encoding, from both ends
/// of the fragment.
pub fn trim_whitespace(input: &[u8]) -> (out: Vec<u8>)
    ensures
        out@ == trim_spec(input@),
{
    let n = input.len();
    proof {
        assert(input@.skip(0) =~= input@);
    }
    let mut lo: usize = 0;
    let mut front = ws_at_front(input, lo);
    while front != 0
        invariant
            lo <= n,
            n == input@.len(),
            front as int == ws_prefix_len(input@.skip(lo as int)),
            drop_leading_ws(input@) == drop_leading_ws(input@.skip(lo as int)),
        decreases n - lo,
    {
        proof {
            assert(input@.skip(lo as int).skip(front as int) =~= input@.skip(lo + front));
        }
        lo = lo + front;
        front = ws_at_front(input, lo);
    }
    proof {
        assert(input@.skip(lo as int) =~= input@.subrange(lo as int, n as int));
    }
    let mut hi: usize = n;
    let mut back = ws_at_back(input, lo, hi);
    while back != 0
        invariant
            lo <= hi <= n,
            n == input@.len(),
            back as int == ws_suffix_len(input@.subrange(lo as int, hi as int)),
            drop_trailing_ws(input@.skip(lo as int)) == drop_trailing_ws(
                input@.subrange(lo as int, hi as int),
            ),
        decreases hi,
    {
        proof {
            let t = input@.subrange(lo as int, hi as int);
            assert(t.take(t.len() - back) =~= input@.subrange(lo as int, hi - back));
        }
        hi = hi - back;
        back = ws_at_back(input, lo, hi);
    }
    let mut out: Vec<u8> = Vec::new();
    let mut j = lo;
    while j < hi
        invariant
            lo <= j <= hi <= n,
            n == input@.len(),
            out@ == input@.subrange(lo as int, j as int),
        decreases hi - j,
    {
        let b = input[j];
        out.push(b);
        proof {
            assert(input@.subrange(lo as int, j + 1) =~= input@.subrange(lo as int, j as int).push(
                input@[j as int],
            ));
        }
        j = j + 1;
    }
    proof {
        assert(out@ =~= input@.subrange(lo as int, hi as int));
    }
    out
}

/// A fragment with no escape byte at all.
pub open spec fn esc_free(s: Seq<u8>) -> bool {
    forall|i: int| 0 <= i < s.len() ==> s[i] != ESC
}

/// A fragment in which every escape byte begins a complete CSI sequence.
pub open spec fn escapes_complete(s: Seq<u8>) -> bool {
    forall|i: int| 0 <= i < s.len() && s[i] == ESC ==> csi_len(#[trigger] s.skip(i)) != 0
}

/// Filtering a fragment with no escape byte leaves it unchanged.
pub proof fn lemma_strip_csi_esc_free(s: Seq<u8>)
    requires
        esc_free(s),
    ensures
        strip_csi_spec(s) == s,
    decreases s.len(),
{
    lemma_csi_len_bounds(s);
    if s.len() > 0 {
        assert(s[0] != ESC);
        assert(csi_len(s) == 0);
        assert(esc_free(s.drop_first())) by {
            assert(forall|i: int|
                0 <= i < s.drop_first().len() ==> s.drop_first()[i] == s[i + 1]);
        }
        lemma_strip_csi_esc_free(s.drop_first());
        assert(seq![s[0]] + s.drop_first() =~= s);
    }
}

proof fn lemma_strip_csi_removes_escapes(s: Seq<u8>)
    requires
        escapes_complete(s),
    ensures
        esc_free(strip_csi_spec(s)),
    decreases s.len(),
{
    lemma_csi_len_bounds(s);
    let l = csi_len(s);
    if 1 <= l && l <= s.len() {
        assert(escapes_complete(s.skip(l))) by {
            assert forall|i: int|
                0 <= i < s.skip(l).len() && s.skip(l)[i] == ESC implies csi_len(
                #[trigger] s.skip(l).skip(i),
            ) != 0 by {
                assert(s.skip(l).skip(i) =~= s.skip(l + i));
                assert(s[l + i] == ESC);
                assert(csi_len(s.skip(l + i)) != 0);
            }
        }
        lemma_strip_csi_removes_escapes(s.skip(l));
    } else if s.len() > 0 {
        assert(s[0] != ESC) by {
            if s[0] == ESC {
                assert(s.skip(0) =~= s);
                assert(csi_len(s.skip(0)) != 0);
            }
        }
        assert(escapes_complete(s.drop_first())) by {
            assert forall|i: int|
                0 <= i < s.drop_first().len() && s.drop_first()[i] == ESC implies csi_len(
                #[trigger] s.drop_first().skip(i),
            ) != 0 by {
                assert(s.drop_first().skip(i) =~= s.skip(1 + i));
                assert(s[1 + i] == ESC);
                assert(csi_len(s.skip(1 + i)) != 0);
            }
        }
        lemma_strip_csi_removes_escapes(s.drop_first());
        assert(esc_free(seq![s[0]] + strip_csi_spec(s.drop_first())));
    }
}

/// Law: the escape-sequence filter is idempotent on fragments whose escape
/// bytes each begin a complete CSI sequence: one pass already removes every
/// control sequence, so a second pass changes nothing.
pub proof fn lemma_strip_csi_idempotent(s: Seq<u8>)
    requires
        escapes_complete(s),
    ensures
        esc_free(strip_csi_spec(s)),
        strip_csi_spec(strip_csi_spec(s)) == strip_csi_spec(s),
{
    lemma_strip_csi_removes_escapes(s);
    lemma_strip_csi_esc_free(strip_csi_spec(s));
}

proof fn lemma_drop_leading_ws_no_prefix(s: Seq<u8>)
    ensures
        ws_prefix_len(drop_leading_ws(s)) == 0,
    decreases s.len(),
{
    let l = ws_prefix_len(s);
    if 1 <= l && l <= s.len() {
        lemma_drop_leading_ws_no_prefix(s.skip(l));
    }
}

proof fn lemma_drop_leading_esc_free(s: Seq<u8>)
    requires
        esc_free(s),
    ensures
        esc_free(drop_leading_ws(s)),
    decreases s.len(),
{
    let l = ws_prefix_len(s);
    if 1 <= l && l <= s.len() {
        assert(esc_free(s.skip(l))) by {
            assert(forall|i: int| 0 <= i < s.skip(l).len() ==> s.skip(l)[i] == s[i + l]);
        }
        lemma_drop_leading_esc_free(s.skip(l));
    }
}

proof fn lemma_drop_trailing_is_prefix(s: Seq<u8>)
    ensures
        drop_trailing_ws(s).len() <= s.len(),
        forall|i: int| 0 <= i < drop_trailing_ws(s).len() ==> drop_trailing_ws(s)[i] == s[i],
        ws_suffix_len(drop_trailing_ws(s)) == 0,
    decreases s.len(),
{
    let l = ws_suffix_len(s);
    if 1 <= l && l <= s.len() {
        lemma_drop_trailing_is_prefix(s.take(s.len() - l));
        assert(forall|i: int| 0 <= i < s.len() - l ==> s.take(s.len() - l)[i] == s[i]);
    }
}

/// A white-space encoding at the front of a prefix of `a` would stand at the
/// front of `a` itself.
proof fn lemma_ws_prefix_of_prefix(a: Seq<u8>, b: Seq<u8>)
    requires
        ws_prefix_len(a) == 0,
        b.len() <= a.len(),
        forall|i: int| 0 <= i < b.len() ==> b[i] == a[i],
    ensures
        ws_prefix_len(b) == 0,
{
}

/// Law: trimming is idempotent: a trimmed fragment has no surrounding
/// whitespace left, so trimming it again changes nothing.
pub proof fn lemma_trim_idempotent(s: Seq<u8>)
    ensures
        trim_spec(trim_spec(s)) == trim_spec(s),
{
    let a = drop_leading_ws(s);
    let b = drop_trailing_ws(a);
    lemma_drop_leading_ws_no_prefix(s);
    lemma_drop_trailing_is_prefix(a);
    lemma_ws_prefix_of_prefix(a, b);
    assert(drop_leading_ws(b) == b);
    assert(drop_trailing_ws(b) == b);
}

/// Law: a cleaned fragment is already trim-clean: trimming it again changes
/// nothing, so an emitted payload never carries surrounding whitespace.
pub proof fn lemma_clean_is_trimmed(s: Seq<u8>)
    ensures
        trim_spec(clean_spec(s)) == clean_spec(s),
{
    lemma_trim_idempotent(strip_csi_spec(s));
}

/// Law: cleaning — one filter pass, then a trim — is idempotent on fragments
/// whose escape bytes each begin a complete CSI sequence.
pub proof fn lemma_clean_idempotent(s: Seq<u8>)
    requires
        escapes_complete(s),
    ensures
        clean_spec(clean_spec(s)) == clean_spec(s),
{
    lemma_strip_csi_idempotent(s);
    let t = strip_csi_spec(s);
    lemma_drop_leading_esc_free(t);
    let a = drop_leading_ws(t);
    lemma_drop_trailing_is_prefix(a);
    let b = drop_trailing_ws(a);
    assert(esc_free(b)) by {
        assert(forall|i: int| 0 <= i < b.len() ==> b[i] == a[i]);
    }
    lemma_strip_csi_esc_free(b);
    lemma_trim_idempotent(t);
}

proof fn lemma_first_scalar_same_prefix(s: Seq<u8>, t: Seq<u8>)
    requires
        valid_first_scalar(s),
        t.len() >= length_of_first_scalar(s),
        forall|i: int| 0 <= i < length_of_first_scalar(s) ==> t[i] == s[i],
    ensures
        valid_first_scalar(t),
        length_of_first_scalar(t) == length_of_first_scalar(s),
{
}

/// Putting a whole leading scalar of `s` in front of valid bytes is valid.
proof fn lemma_scalar_concat_valid(s: Seq<u8>, t: Seq<u8>)
    requires
        valid_utf8(s),
        s.len() > 0,
        valid_utf8(t),
    ensures
        valid_utf8(s.take(length_of_first_scalar(s)) + t),
{
    let w = length_of_first_scalar(s);
    let u = s.take(w) + t;
    lemma_first_scalar_same_prefix(s, u);
    assert(pop_first_scalar(u) =~= t);
}

proof fn lemma_valid_skip_one_ascii(s: Seq<u8>)
    requires
        valid_utf8(s),
        s.len() > 0,
        s[0] < 0x80,
    ensures
        valid_utf8(s.skip(1)),
{
    assert(length_of_first_scalar(s) == 1);
    assert(pop_first_scalar(s) =~= s.skip(1));
}

proof fn lemma_valid_skip_ascii_run(s: Seq<u8>, k: int)
    requires
        valid_utf8(s),
        0 <= k <= s.len(),
        forall|i: int| 0 <= i < k ==> s[i] < 0x80,
    ensures
        valid_utf8(s.skip(k)),
    decreases k,
{
    if k == 0 {
        assert(s.skip(0) =~= s);
    } else {
        lemma_valid_skip_one_ascii(s);
        assert(forall|i: int| 0 <= i < k - 1 ==> s.skip(1)[i] == s[i + 1]);
        lemma_valid_skip_ascii_run(s.skip(1), k - 1);
        assert(s.skip(1).skip(k - 1) =~= s.skip(k));
    }
}

proof fn lemma_run_is_class(t: Seq<u8>)
    ensures
        forall|i: int| 0 <= i < param_run_len(t) ==> is_csi_param(t[i]),
        forall|i: int| 0 <= i < inter_run_len(t) ==> is_csi_inter(t[i]),
    decreases t.len(),
{
    lemma_param_run_len_bounds(t);
    if t.len() > 0 {
        lemma_run_is_class(t.drop_first());
        assert forall|i: int| 0 <= i < param_run_len(t) implies is_csi_param(t[i]) by {
            if i > 0 {
                assert(t.drop_first()[i - 1] == t[i]);
                assert(is_csi_param(t.drop_first()[i - 1]));
            }
        }
        assert forall|i: int| 0 <= i < inter_run_len(t) implies is_csi_inter(t[i]) by {
            if i > 0 {
                assert(t.drop_first()[i - 1] == t[i]);
                assert(is_csi_inter(t.drop_first()[i - 1]));
            }
        }
    }
}

/// Every byte of a CSI sequence lies below `0x80`.
proof fn lemma_csi_match_ascii(s: Seq<u8>)
    requires
        csi_len(s) != 0,
    ensures
        forall|i: int| 0 <= i < csi_len(s) ==> s[i] < 0x80,
{
    lemma_csi_len_bounds(s);
    let p = param_run_len(s.skip(2));
    let m = inter_run_len(s.skip(2 + p));
    lemma_param_run_len_bounds(s.skip(2));
    lemma_param_run_len_bounds(s.skip(2 + p));
    lemma_run_is_class(s.skip(2));
    lemma_run_is_class(s.skip(2 + p));
    assert forall|i: int| 0 <= i < csi_len(s) implies s[i] < 0x80 by {
        if 2 <= i < 2 + p {
            assert(s.skip(2)[i - 2] == s[i]);
            assert(is_csi_param(s[i]));
        } else if 2 + p <= i < 2 + p + m {
            assert(s.skip(2 + p)[i - 2 - p] == s[i]);
            assert(is_csi_inter(s[i]));
        } else if i == 2 + p + m {
            assert(is_csi_final(s[i]));
        }
    }
}

/// The filter copies a run of continuation bytes unchanged: none of them can
/// begin a CSI sequence.
proof fn lemma_strip_continuation_prefix(t: Seq<u8>, j: int)
    requires
        0 <= j <= t.len(),
        forall|i: int| 0 <= i < j ==> is_continuation_byte(t[i]),
    ensures
        strip_csi_spec(t) == t.take(j) + strip_csi_spec(t.skip(j)),
    decreases j,
{
    if j == 0 {
        assert(t.skip(0) =~= t);
        assert(t.take(0) + strip_csi_spec(t) =~= strip_csi_spec(t));
    } else {
        assert(is_continuation_byte(t[0]));
        assert(t[0] != ESC);
        assert(csi_len(t) == 0);
        assert(forall|i: int|
            0 <= i < j - 1 ==> is_continuation_byte(#[trigger] t.drop_first()[i]));
        lemma_strip_continuation_prefix(t.drop_first(), j - 1);
        assert(t.drop_first().skip(j - 1) =~= t.skip(j));
        assert(seq![t[0]] + (t.drop_first().take(j - 1) + strip_csi_spec(t.skip(j))) =~= t.take(j)
            + strip_csi_spec(t.skip(j)));
    }
}

/// Law: the filter never breaks the encoding: stripping control sequences
/// from valid UTF-8 leaves valid UTF-8, since whole sequences are ASCII runs
/// and every other scalar is copied whole.
pub proof fn lemma_strip_csi_preserves_utf8(s: Seq<u8>)
    requires
        valid_utf8(s),
    ensures
        valid_utf8(strip_csi_spec(s)),
    decreases s.len(),
{
    lemma_csi_len_bounds(s);
    let l = csi_len(s);
    if s.len() == 0 {
    } else if 1 <= l && l <= s.len() {
        lemma_csi_match_ascii(s);
        assert(forall|i: int| 0 <= i < l ==> s[i] < 0x80);
        lemma_valid_skip_ascii_run(s, l);
        lemma_strip_csi_preserves_utf8(s.skip(l));
    } else {
        let w = length_of_first_scalar(s);
        assert(valid_first_scalar(s));
        assert(1 <= w <= s.len());
        assert(pop_first_scalar(s) =~= s.skip(w));
        lemma_strip_csi_preserves_utf8(s.skip(w));
        assert(forall|i: int| 0 <= i < w - 1 ==> is_continuation_byte(#[trigger] s.skip(1)[i]));
        lemma_strip_continuation_prefix(s.skip(1), w - 1);
        assert(s.drop_first() =~= s.skip(1));
        assert(s.skip(1).skip(w - 1) =~= s.skip(w));
        assert(seq![s[0]] + (s.skip(1).take(w - 1) + strip_csi_spec(s.skip(w))) =~= s.take(w)
            + strip_csi_spec(s.skip(w)));
        lemma_scalar_concat_valid(s, strip_csi_spec(s.skip(w)));
    }
}

/// A white-space encoding at the front of valid UTF-8 is exactly its first
/// scalar, so skipping it keeps the rest valid.
proof fn lemma_ws_prefix_is_first_scalar(s: Seq<u8>)
    requires
        valid_utf8(s),
        ws_prefix_len(s) >= 1,
    ensures
        length_of_first_scalar(s) == ws_prefix_len(s),
        valid_utf8(s.skip(ws_prefix_len(s))),
{
    let l = ws_prefix_len(s);
    assert(1 <= l <= s.len());
    assert(length_of_first_scalar(s) == l);
    assert(pop_first_scalar(s) =~= s.skip(l));
}

/// A white-space encoding at the back of valid UTF-8 starts on a character
/// boundary — its first byte is a blank, `C2`, or `E1`..`E3`, never a
/// continuation byte — so cutting it off keeps the front valid.
proof fn lemma_ws_suffix_on_boundary(s: Seq<u8>)
    requires
        valid_utf8(s),
        ws_suffix_len(s) >= 1,
    ensures
        valid_utf8(s.take(s.len() - ws_suffix_len(s))),
{
    let n = s.len() as int;
    let l = ws_suffix_len(s);
    if n - l == 0 {
        assert(s.take(0) =~= Seq::<u8>::empty());
    } else {
        if l == 3 {
            assert(s.skip(n - 3)[0] == s[n - 3]);
            assert(s[n - 3] == 0xe1 || s[n - 3] == 0xe2 || s[n - 3] == 0xe3);
        } else if l == 2 {
            assert(s.skip(n - 2)[0] == s[n - 2]);
            assert(s[n - 2] == 0xc2);
        } else {
            assert(is_blank(s[n - 1]));
        }
        assert(!is_continuation_byte(s[n - l]));
        vstd::utf8::is_char_boundary_iff_not_is_continuation_byte(s, n - l);
        vstd::utf8::valid_utf8_split(s, n - l);
        assert(s.take(n - l) =~= s.subrange(0, n - l));
    }
}

proof fn lemma_drop_leading_preserves_utf8(s: Seq<u8>)
    requires
        valid_utf8(s),
    ensures
        valid_utf8(drop_leading_ws(s)),
    decreases s.len(),
{
    let l = ws_prefix_len(s);
    if 1 <= l && l <= s.len() {
        lemma_ws_prefix_is_first_scalar(s);
        lemma_drop_leading_preserves_utf8(s.skip(l));
    }
}

proof fn lemma_drop_trailing_preserves_utf8(s: Seq<u8>)
    requires
        valid_utf8(s),
    ensures
        valid_utf8(drop_trailing_ws(s)),
    decreases s.len(),
{
    let l = ws_suffix_len(s);
    if 1 <= l && l <= s.len() {
        lemma_ws_suffix_on_boundary(s);
        lemma_drop_trailing_preserves_utf8(s.take(s.len() - l));
    }
}

/// Law: cleaning never breaks the encoding: the cleaned form of a valid UTF-8
/// fragment is valid UTF-8 again.
pub proof fn lemma_clean_preserves_utf8(s: Seq<u8>)
    requires
        valid_utf8(s),
    ensures
        valid_utf8(clean_spec(s)),
{
    lemma_strip_csi_preserves_utf8(s);
    lemma_drop_leading_preserves_utf8(strip_csi_spec(s));
    lemma_drop_trailing_preserves_utf8(drop_leading_ws(strip_csi_spec(s)));
}

/// The cleaned form of a fragment: control sequences removed, surrounding
/// whitespace trimmed.
pub fn clean(input: &[u8]) -> (out: Vec<u8>)
    ensures
        out@ == clean_spec(input@),
{
    let stripped = strip_csi(input);
    trim_whitespace(stripped.as_slice())
}

} // verus!
