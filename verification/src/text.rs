//! Character-level helpers: the whitespace class, trimming, and the
//! conversion of a buffer of characters to a `String`.

use vstd::prelude::*;

verus! {

/// `String::push` appends the given character to the end of the string and
/// leaves the characters before it as they were.
pub assume_specification[ String::push ](s: &mut String, c: char)
    ensures
        final(s)@ == old(s)@.push(c),
;

/// The characters that Unicode classes as `White_Space`.
pub open spec fn is_whitespace(c: char) -> bool {
    let n = c as u32;
    ||| 0x09 <= n <= 0x0D
    ||| n == 0x20
    ||| n == 0x85
    ||| n == 0xA0
    ||| n == 0x1680
    ||| 0x2000 <= n <= 0x200A
    ||| n == 0x2028
    ||| n == 0x2029
    ||| n == 0x202F
    ||| n == 0x205F
    ||| n == 0x3000
}

/// Every character of `s` is whitespace; true of the empty sequence.
pub open spec fn all_whitespace(s: Seq<char>) -> bool {
    forall|i: int| 0 <= i < s.len() ==> is_whitespace(#[trigger] s[i])
}

/// `s` without its leading whitespace.
pub open spec fn trim_start(s: Seq<char>) -> Seq<char>
    decreases s.len(),
{
    if s.len() > 0 && is_whitespace(s[0]) {
        trim_start(s.skip(1))
    } else {
        s
    }
}

/// `s` without its trailing whitespace.
pub open spec fn trim_end(s: Seq<char>) -> Seq<char>
    decreases s.len(),
{
    if s.len() > 0 && is_whitespace(s.last()) {
        trim_end(s.drop_last())
    } else {
        s
    }
}

/// `s` without its leading and trailing whitespace.
pub open spec fn trim(s: Seq<char>) -> Seq<char> {
    trim_end(trim_start(s))
}

/// Trimming at the front removes exactly the first `k` characters, where `k`
/// is the position of the first character that is not whitespace.
pub proof fn lemma_trim_start_skips(s: Seq<char>, k: int)
    requires
        0 <= k <= s.len(),
        forall|i: int| 0 <= i < k ==> is_whitespace(#[trigger] s[i]),
        k < s.len() ==> !is_whitespace(s[k]),
    ensures
        trim_start(s) == s.skip(k),
    decreases k,
{
    if k == 0 {
        assert(s.skip(0) =~= s);
    } else {
        let t = s.skip(1);
        assert forall|i: int| 0 <= i < k - 1 implies is_whitespace(#[trigger] t[i]) by {
            assert(t[i] == s[i + 1]);
        }
        lemma_trim_start_skips(t, k - 1);
        assert(t.skip(k - 1) =~= s.skip(k));
    }
}

/// Trimming at the back keeps exactly the first `e` characters, where `e` is
/// the position after the last character that is not whitespace.
pub proof fn lemma_trim_end_takes(s: Seq<char>, e: int)
    requires
        0 <= e <= s.len(),
        forall|i: int| e <= i < s.len() ==> is_whitespace(#[trigger] s[i]),
        e > 0 ==> !is_whitespace(s[e - 1]),
    ensures
        trim_end(s) == s.take(e),
    decreases s.len() - e,
{
    if e == s.len() {
        assert(s.take(e) =~= s);
    } else {
        let t = s.drop_last();
        assert(is_whitespace(s[s.len() - 1]));
        lemma_trim_end_takes(t, e);
        assert(t.take(e) =~= s.take(e));
    }
}

/// A sequence of whitespace alone trims to nothing.
pub proof fn lemma_trim_all_whitespace(s: Seq<char>)
    requires
        all_whitespace(s),
    ensures
        trim(s) == Seq::<char>::empty(),
{
    lemma_trim_start_skips(s, s.len() as int);
    assert(s.skip(s.len() as int) =~= Seq::<char>::empty());
}

/// Whether `c` is a whitespace character.
pub fn char_is_whitespace(c: char) -> (b: bool)
    ensures
        b == is_whitespace(c),
{
    let n: u32 = c as u32;
    (0x09 <= n && n <= 0x0D) || n == 0x20 || n == 0x85 || n == 0xA0 || n == 0x1680 || (0x2000 <= n
        && n <= 0x200A) || n == 0x2028 || n == 0x2029 || n == 0x202F || n == 0x205F || n == 0x3000
}

/// The position of the first character of `chars` that is not whitespace,
/// or the length of `chars` if there is none.
pub fn leading_whitespace(chars: &Vec<char>) -> (k: usize)
    ensures
        k <= chars.len(),
        forall|i: int| 0 <= i < k ==> is_whitespace(#[trigger] chars@[i]),
        k < chars.len() ==> !is_whitespace(chars@[k as int]),
{
    let mut k: usize = 0;
    while k < chars.len() && char_is_whitespace(chars[k])
        invariant
            k <= chars.len(),
            forall|i: int| 0 <= i < k ==> is_whitespace(#[trigger] chars@[i]),
        decreases chars.len() - k,
    {
        k += 1;
    }
    k
}

/// The position after the last character of `chars`, at or after `from`,
/// that is not whitespace; `from` if there is none.
fn trailing_bound(chars: &Vec<char>, from: usize) -> (e: usize)
    requires
        from <= chars.len(),
    ensures
        from <= e <= chars.len(),
        forall|i: int| e <= i < chars.len() ==> is_whitespace(#[trigger] chars@[i]),
        e > from ==> !is_whitespace(chars@[e - 1]),
{
    let mut e: usize = chars.len();
    while e > from && char_is_whitespace(chars[e - 1])
        invariant
            from <= e <= chars.len(),
            forall|i: int| e <= i < chars.len() ==> is_whitespace(#[trigger] chars@[i]),
        decreases e,
    {
        e -= 1;
    }
    e
}

/// A copy of the characters of `chars` from `from` up to `to`.
fn copy_range(chars: &Vec<char>, from: usize, to: usize) -> (out: Vec<char>)
    requires
        from <= to <= chars.len(),
    ensures
        out@ == chars@.subrange(from as int, to as int),
{
    let mut out: Vec<char> = Vec::new();
    let mut i: usize = from;
    while i < to
        invariant
            from <= i <= to <= chars.len(),
            out@ == chars@.subrange(from as int, i as int),
        decreases to - i,
    {
        out.push(chars[i]);
        i += 1;
        assert(chars@.subrange(from as int, i as int) =~= chars@.subrange(from as int, i - 1).push(
            chars@[i - 1],
        ));
    }
    out
}

/// `chars` without its leading and trailing whitespace.
pub fn trimmed(chars: &Vec<char>) -> (out: Vec<char>)
    ensures
        out@ == trim(chars@),
{
    let k = leading_whitespace(chars);
    let e = trailing_bound(chars, k);
    proof {
        let s = chars@;
        lemma_trim_start_skips(s, k as int);
        let t = s.skip(k as int);
        assert forall|i: int| e - k <= i < t.len() implies is_whitespace(#[trigger] t[i]) by {
            assert(t[i] == s[i + k]);
        }
        if e > k {
            assert(t[e - k - 1] == s[e - 1]);
        }
        lemma_trim_end_takes(t, e - k);
        assert(t.take(e - k) =~= s.subrange(k as int, e as int));
    }
    copy_range(chars, k, e)
}

/// The string made of the characters of `chars`, in order.
pub fn to_string(chars: &Vec<char>) -> (s: String)
    ensures
        s@ == chars@,
{
    let mut s = String::new();
    let mut i: usize = 0;
    while i < chars.len()
        invariant
            i <= chars.len(),
            s@ == chars@.take(i as int),
        decreases chars.len() - i,
    {
        s.push(chars[i]);
        i += 1;
        assert(chars@.take(i as int) =~= chars@.take(i - 1).push(chars@[i - 1]));
    }
    assert(chars@.take(chars.len() as int) =~= chars@);
    s
}

} // verus!
