//! Byte-to-text helpers shared by the decoders: Latin-1 decoding, whitespace
//! trimming and small string builders.

use vstd::prelude::*;

verus! {

/// Latin-1 decoding: each byte is the code point of one character.
pub open spec fn latin1(s: Seq<u8>) -> Seq<char> {
    s.map_values(|b: u8| b as char)
}

/// A byte whose Latin-1 character is Unicode whitespace (the `White_Space`
/// property restricted to U+0000..=U+00FF).
pub open spec fn is_ws(b: u8) -> bool {
    (9 <= b && b <= 13) || b == 32 || b == 0x85 || b == 0xA0
}

/// `s` without its leading whitespace bytes.
pub open spec fn trim_start(s: Seq<u8>) -> Seq<u8>
    decreases s.len(),
{
    if s.len() > 0 && is_ws(s[0]) {
        trim_start(s.drop_first())
    } else {
        s
    }
}

/// `s` without its trailing whitespace bytes.
pub open spec fn trim_end(s: Seq<u8>) -> Seq<u8>
    decreases s.len(),
{
    if s.len() > 0 && is_ws(s.last()) {
        trim_end(s.drop_last())
    } else {
        s
    }
}

/// `s` without leading and trailing whitespace.
pub open spec fn trim(s: Seq<u8>) -> Seq<u8> {
    trim_end(trim_start(s))
}

/// Bytes of `s` up to (excluding) its first NUL.
pub open spec fn until_nul(s: Seq<u8>) -> Seq<u8>
    decreases s.len(),
{
    if s.len() == 0 || s[0] == 0 {
        Seq::empty()
    } else {
        seq![s[0]] + until_nul(s.drop_first())
    }
}

/// `std::string::String::push`: appends `c` to the end of `s`, as its
/// documentation says; claimed here as the character sequence of `s` growing
/// by exactly `c`.
#[verifier::external_body]
pub(crate) fn push_char(s: &mut String, c: char)
    ensures
        final(s)@ == old(s)@.push(c),
{
    s.push(c);
}

/// A byte whose Latin-1 character is whitespace (see [`is_ws`]).
pub fn ws_byte(b: u8) -> (r: bool)
    ensures
        r == is_ws(b),
{
    (9 <= b && b <= 13) || b == 32 || b == 0x85 || b == 0xA0
}

proof fn lemma_trim_end_sub(s: Seq<u8>, k: int)
    requires
        0 <= k <= s.len(),
        forall|j: int| k <= j < s.len() ==> is_ws(#[trigger] s[j]),
    ensures
        trim_end(s) == trim_end(s.subrange(0, k)),
    decreases s.len() - k,
{
    if k < s.len() {
        assert(s.drop_last() =~= s.subrange(0, s.len() - 1));
        assert(s.drop_last().subrange(0, k) =~= s.subrange(0, k));
        lemma_trim_end_sub(s.drop_last(), k);
    } else {
        assert(s.subrange(0, k) =~= s);
    }
}

/// The Latin-1 text of `data[lo..hi]`, without leading and trailing whitespace.
pub fn latin1_trimmed(data: &[u8], lo: usize, hi: usize) -> (r: String)
    requires
        lo <= hi <= data@.len(),
    ensures
        r@ == latin1(trim(data@.subrange(lo as int, hi as int))),
{
    let ghost s = data@.subrange(lo as int, hi as int);
    let mut a = lo;
    while a < hi && ws_byte(data[a])
        invariant
            lo <= a <= hi <= data@.len(),
            s == data@.subrange(lo as int, hi as int),
            trim_start(s) == trim_start(data@.subrange(a as int, hi as int)),
        decreases hi - a,
    {
        assert(data@.subrange(a as int, hi as int).drop_first() =~= data@.subrange(
            a + 1,
            hi as int,
        ));
        a = a + 1;
    }
    proof {
        let t = data@.subrange(a as int, hi as int);
        if t.len() > 0 {
            assert(!is_ws(t[0]));
        }
        assert(trim_start(t) == t);
    }
    let mut b = hi;
    while b > a && ws_byte(data[b - 1])
        invariant
            lo <= a <= b <= hi <= data@.len(),
            forall|j: int| b <= j < hi ==> is_ws(#[trigger] data@[j]),
        decreases b - a,
    {
        b = b - 1;
    }
    proof {
        let t = data@.subrange(a as int, hi as int);
        let k = (b - a) as int;
        assert forall|j: int| k <= j < t.len() implies is_ws(#[trigger] t[j]) by {
            assert(t[j] == data@[a + j]);
        }
        lemma_trim_end_sub(t, k);
        let u = t.subrange(0, k);
        assert(u =~= data@.subrange(a as int, b as int));
        if u.len() > 0 {
            assert(u.last() == data@[b - 1]);
        }
        assert(trim_end(u) == u);
    }
    latin1_range(data, a, b)
}

/// The Latin-1 text of `data[lo..hi]`.
pub fn latin1_range(data: &[u8], lo: usize, hi: usize) -> (r: String)
    requires
        lo <= hi <= data@.len(),
    ensures
        r@ == latin1(data@.subrange(lo as int, hi as int)),
{
    let mut r = String::new();
    let mut i = lo;
    while i < hi
        invariant
            lo <= i <= hi <= data@.len(),
            r@ == latin1(data@.subrange(lo as int, i as int)),
        decreases hi - i,
    {
        let c = data[i] as char;
        push_char(&mut r, c);
        i = i + 1;
        assert(latin1(data@.subrange(lo as int, i as int)) =~= latin1(
            data@.subrange(lo as int, (i - 1) as int),
        ).push(c));
    }
    r
}

} // verus!
