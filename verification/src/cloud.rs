//! The text side of sharing a song space: the space's settings, the
//! URL-safe form of their base64 text carried in a `#c=` fragment, the share
//! URL itself and the hex space keys.

use vstd::prelude::*;
use crate::text::push_char;

verus! {

/// Where a shared song space lives: the Supabase URL, its anon key and the
/// space key.
#[derive(Clone, Debug)]
pub struct Config {
    pub url: String,
    pub anon: String,
    pub space: String,
}

impl Default for Config {
    /// No space: all three fields empty.
    fn default() -> (c: Config)
        ensures
            c.url@.len() == 0,
            c.anon@.len() == 0,
            c.space@.len() == 0,
    {
        Config { url: String::new(), anon: String::new(), space: String::new() }
    }
}

impl Config {
    /// All three fields are filled in.
    pub fn is_set(&self) -> (r: bool)
        ensures
            r == (self.url@.len() > 0 && self.anon@.len() > 0 && self.space@.len() > 0),
    {
        !self.url.as_str().is_empty() && !self.anon.as_str().is_empty() && !self.space.as_str().is_empty()
    }
}

/// Base64 to its URL-safe alphabet: `+` becomes `-` and `/` becomes `_`.
pub open spec fn to_url_char(c: char) -> char {
    if c == '+' {
        '-'
    } else if c == '/' {
        '_'
    } else {
        c
    }
}

/// URL-safe base64 back to the standard alphabet.
pub open spec fn from_url_char(c: char) -> char {
    if c == '-' {
        '+'
    } else if c == '_' {
        '/'
    } else {
        c
    }
}

/// The URL-safe form of base64 text `b64`, for the `#c=` fragment.
pub fn url_safe(b64: &str) -> (r: String)
    ensures
        r@ == b64@.map_values(|c: char| to_url_char(c)),
{
    let n = b64.unicode_len();
    let mut out = String::new();
    let mut i: usize = 0;
    while i < n
        invariant
            n == b64@.len(),
            i <= n,
            out@ == b64@.take(i as int).map_values(|c: char| to_url_char(c)),
        decreases n - i,
    {
        let c = b64.get_char(i);
        let d = if c == '+' { '-' } else if c == '/' { '_' } else { c };
        push_char(&mut out, d);
        assert(b64@.take(i + 1) =~= b64@.take(i as int).push(c));
        i = i + 1;
    }
    assert(b64@.take(n as int) =~= b64@);
    out
}

/// The base64 text of a URL-safe fragment value.
pub fn from_url_safe(frag: &str) -> (r: String)
    ensures
        r@ == frag@.map_values(|c: char| from_url_char(c)),
{
    let n = frag.unicode_len();
    let mut out = String::new();
    let mut i: usize = 0;
    while i < n
        invariant
            n == frag@.len(),
            i <= n,
            out@ == frag@.take(i as int).map_values(|c: char| from_url_char(c)),
        decreases n - i,
    {
        let c = frag.get_char(i);
        let d = if c == '-' { '+' } else if c == '_' { '/' } else { c };
        push_char(&mut out, d);
        assert(frag@.take(i + 1) =~= frag@.take(i as int).push(c));
        i = i + 1;
    }
    assert(frag@.take(n as int) =~= frag@);
    out
}

/// Base64 text read back from its URL-safe form is the text itself (base64
/// never holds `-` or `_`).
pub proof fn lemma_url_safe_round_trip(b64: Seq<char>)
    requires
        forall|i: int| 0 <= i < b64.len() ==> #[trigger] b64[i] != '-' && b64[i] != '_',
    ensures
        b64.map_values(|c: char| to_url_char(c)).map_values(|c: char| from_url_char(c)) == b64,
{
    assert(b64.map_values(|c: char| to_url_char(c)).map_values(|c: char| from_url_char(c)) =~= b64);
}

/// `s` without its leading `#` characters.
pub open spec fn strip_hashes(s: Seq<char>) -> Seq<char>
    decreases s.len(),
{
    if s.len() > 0 && s[0] == '#' {
        strip_hashes(s.drop_first())
    } else {
        s
    }
}

/// The value of a `#c=<value>` page fragment: after the leading `#`s, the
/// text behind `c=`; `None` for a fragment without it.
pub open spec fn fragment_of(hash: Seq<char>) -> Option<Seq<char>> {
    let s = strip_hashes(hash);
    if s.len() >= 2 && s[0] == 'c' && s[1] == '=' {
        Some(s.subrange(2, s.len() as int))
    } else {
        None
    }
}

proof fn lemma_strip_hashes(s: Seq<char>, k: int)
    requires
        0 <= k <= s.len(),
        forall|j: int| 0 <= j < k ==> #[trigger] s[j] == '#',
    ensures
        strip_hashes(s) == strip_hashes(s.subrange(k, s.len() as int)),
    decreases k,
{
    if k > 0 {
        assert(s.drop_first().subrange(k - 1, s.drop_first().len() as int) =~= s.subrange(k, s.len() as int));
        lemma_strip_hashes(s.drop_first(), k - 1);
    } else {
        assert(s.subrange(0, s.len() as int) =~= s);
    }
}

/// The config value carried by the page fragment `hash` (as the browser
/// gives it, with its `#`).
pub fn fragment_value(hash: &str) -> (r: Option<String>)
    ensures
        match r {
            Some(v) => fragment_of(hash@) == Some(v@),
            None => fragment_of(hash@) is None,
        },
{
    let n = hash.unicode_len();
    let mut k: usize = 0;
    while k < n && hash.get_char(k) == '#'
        invariant
            n == hash@.len(),
            k <= n,
            forall|j: int| 0 <= j < k ==> #[trigger] hash@[j] == '#',
        decreases n - k,
    {
        k = k + 1;
    }
    proof {
        lemma_strip_hashes(hash@, k as int);
        let rest = hash@.subrange(k as int, n as int);
        if rest.len() > 0 {
            assert(rest[0] != '#');
        }
        assert(strip_hashes(rest) == rest);
    }
    if n - k >= 2 && hash.get_char(k) == 'c' && hash.get_char(k + 1) == '=' {
        let v = hash.substring_char(k + 2, n).to_owned();
        proof {
            assert(hash@.subrange(k as int, n as int).subrange(2, n - k) =~= hash@.subrange(k + 2, n as int));
        }
        Some(v)
    } else {
        None
    }
}

/// The text of `s` before its first `#` (all of it without one).
pub open spec fn before_hash(s: Seq<char>) -> Seq<char>
    decreases s.len(),
{
    if s.len() == 0 || s[0] == '#' {
        Seq::empty()
    } else {
        seq![s[0]] + before_hash(s.drop_first())
    }
}

/// The share URL of page `href` for the fragment value `frag`: the page
/// without its own fragment, then `#c=` and the value.
pub open spec fn share_url_of(href: Seq<char>, frag: Seq<char>) -> Seq<char> {
    before_hash(href) + seq!['#', 'c', '='] + frag
}

proof fn lemma_before_hash(s: Seq<char>, k: int)
    requires
        0 <= k <= s.len(),
        forall|j: int| 0 <= j < k ==> #[trigger] s[j] != '#',
        k == s.len() || s[k] == '#',
    ensures
        before_hash(s) == s.subrange(0, k),
    decreases k,
{
    if k > 0 {
        assert(s.drop_first().len() == s.len() - 1);
        lemma_before_hash(s.drop_first(), k - 1);
        assert(seq![s[0]] + s.drop_first().subrange(0, k - 1) =~= s.subrange(0, k));
    } else {
        assert(s.subrange(0, 0) =~= Seq::<char>::empty());
    }
}

/// The full share URL: page `href` minus any fragment, plus `#c=<frag>`.
pub fn share_url(href: &str, frag: &str) -> (r: String)
    ensures
        r@ == share_url_of(href@, frag@),
{
    let n = href.unicode_len();
    let mut out = String::new();
    let mut i: usize = 0;
    while i < n && href.get_char(i) != '#'
        invariant
            n == href@.len(),
            i <= n,
            forall|j: int| 0 <= j < i ==> #[trigger] href@[j] != '#',
            out@ == href@.subrange(0, i as int),
        decreases n - i,
    {
        let c = href.get_char(i);
        push_char(&mut out, c);
        assert(href@.subrange(0, i + 1) =~= href@.subrange(0, i as int).push(c));
        i = i + 1;
    }
    proof {
        lemma_before_hash(href@, i as int);
    }
    push_char(&mut out, '#');
    push_char(&mut out, 'c');
    push_char(&mut out, '=');
    let m = frag.unicode_len();
    let ghost base = out@;
    let mut j: usize = 0;
    while j < m
        invariant
            m == frag@.len(),
            j <= m,
            out@ == base + frag@.take(j as int),
        decreases m - j,
    {
        let c = frag.get_char(j);
        push_char(&mut out, c);
        assert(frag@.take(j + 1) =~= frag@.take(j as int).push(c));
        j = j + 1;
    }
    assert(frag@.take(m as int) =~= frag@);
    assert(out@ =~= share_url_of(href@, frag@));
    out
}

/// What a share URL carries comes back out of its fragment: the part of the
/// URL from its first `#` on, read as a page fragment, is the value that was
/// put in.
pub proof fn lemma_share_url_round_trip(href: Seq<char>, frag: Seq<char>)
    ensures
        ({
            let url = share_url_of(href, frag);
            let base = before_hash(href);
            fragment_of(url.subrange(base.len() as int, url.len() as int)) == Some(frag)
        }),
{
    let url = share_url_of(href, frag);
    let base = before_hash(href);
    let hash = url.subrange(base.len() as int, url.len() as int);
    assert(hash =~= seq!['#', 'c', '='] + frag);
    assert(hash.drop_first() =~= seq!['c', '='] + frag);
    assert(strip_hashes(hash.drop_first()) == hash.drop_first());
    assert(strip_hashes(hash) == hash.drop_first());
    assert(hash.drop_first().subrange(2, hash.drop_first().len() as int) =~= frag);
}

/// Lowercase hex digit of `n` (0..16).
pub open spec fn hex_digit(n: int) -> char {
    if n < 10 {
        (('0' as int) + n) as char
    } else {
        (('a' as int) + n - 10) as char
    }
}

/// Lowercase hex text of `b`: two digits per byte, high nibble first.
pub open spec fn hex_of(b: Seq<u8>) -> Seq<char>
    decreases b.len(),
{
    if b.len() == 0 {
        Seq::empty()
    } else {
        hex_of(b.drop_last()) + seq![hex_digit(b.last() as int / 16), hex_digit(b.last() as int % 16)]
    }
}

fn hex_char(n: u8) -> (c: char)
    requires
        n < 16,
    ensures
        c == hex_digit(n as int),
{
    let digits: [char; 16] = ['0', '1', '2', '3', '4', '5', '6', '7', '8', '9', 'a', 'b', 'c', 'd', 'e', 'f'];
    assert(digits@ =~= seq!['0', '1', '2', '3', '4', '5', '6', '7', '8', '9', 'a', 'b', 'c', 'd', 'e', 'f']);
    digits[n as usize]
}

/// A space key from random bytes: their lowercase hex text.
pub fn hex_key(buf: &[u8]) -> (r: String)
    ensures
        r@ == hex_of(buf@),
        r@.len() == 2 * buf@.len(),
{
    let mut out = String::new();
    let mut i: usize = 0;
    while i < buf.len()
        invariant
            i <= buf@.len(),
            out@ == hex_of(buf@.take(i as int)),
            out@.len() == 2 * i,
        decreases buf@.len() - i,
    {
        let b = buf[i];
        assert(buf@.take(i + 1).drop_last() =~= buf@.take(i as int));
        assert((b >> 4) == b / 16 && b / 16 < 16) by (bit_vector);
        assert((b & 15) == b % 16 && b % 16 < 16) by (bit_vector);
        push_char(&mut out, hex_char(b >> 4));
        push_char(&mut out, hex_char(b & 15));
        i = i + 1;
    }
    assert(buf@.take(buf@.len() as int) =~= buf@);
    out
}

} // verus!
