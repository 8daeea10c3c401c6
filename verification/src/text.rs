use vstd::prelude::*;
use vstd::utf8::*;

verus! {

/// Unicode `White_Space` property.
pub open spec fn is_white_space(c: char) -> bool {
    let u = c as u32;
    ||| 0x09 <= u <= 0x0D
    ||| u == 0x20
    ||| u == 0x85
    ||| u == 0xA0
    ||| u == 0x1680
    ||| 0x2000 <= u <= 0x200A
    ||| u == 0x2028
    ||| u == 0x2029
    ||| u == 0x202F
    ||| u == 0x205F
    ||| u == 0x3000
}

pub fn is_whitespace(c: char) -> (b: bool)
    ensures
        b == is_white_space(c),
{
    let u = c as u32;
    (0x09 <= u && u <= 0x0D) || u == 0x20 || u == 0x85 || u == 0xA0 || u == 0x1680 || (0x2000 <= u
        && u <= 0x200A) || u == 0x2028 || u == 0x2029 || u == 0x202F || u == 0x205F || u == 0x3000
}

pub fn chars_of(s: &str) -> (v: Vec<char>)
    ensures
        v@ == s@,
{
    let mut v: Vec<char> = Vec::new();
    for c in it: s.chars()
        invariant
            v@ == it.seq().take(it.index() as int),
            it.seq() == s@,
    {
        v.push(c);
    }
    v
}

/// Calls `String::push`.  Trusted: the string afterwards is the string before
/// with `c` appended.
#[verifier::external_body]
pub(crate) fn push_char(s: &mut String, c: char)
    ensures
        final(s)@ == old(s)@.push(c),
{
    s.push(c);
}

/// The characters `v[start..end]` as a `String`.
pub fn string_from_range(v: &Vec<char>, start: usize, end: usize) -> (s: String)
    requires
        start <= end <= v@.len(),
    ensures
        s@ == v@.subrange(start as int, end as int),
{
    let mut s = String::new();
    let mut i = start;
    while i < end
        invariant
            start <= i <= end <= v@.len(),
            s@ == v@.subrange(start as int, i as int),
        decreases end - i,
    {
        push_char(&mut s, v[i]);
        i = i + 1;
    }
    s
}

pub fn string_from_chars(v: &Vec<char>) -> (s: String)
    ensures
        s@ == v@,
{
    let mut s = String::new();
    for i in 0..v.len()
        invariant
            s@ == v@.take(i as int),
    {
        push_char(&mut s, v[i]);
    }
    s
}

} // verus!

verus! {

broadcast use vstd::utf8::char_is_scalar;

/// Number of bytes in the UTF-8 encoding of `s`.
pub open spec fn blen(s: Seq<char>) -> nat {
    encode_utf8(s).len()
}

/// UTF-8 encoding distributes over concatenation.
pub proof fn lemma_encode_concat(a: Seq<char>, b: Seq<char>)
    ensures
        encode_utf8(a + b) == encode_utf8(a) + encode_utf8(b),
    decreases a.len(),
{
    if a.len() == 0 {
        assert(a + b =~= b);
        assert(encode_utf8(a) + encode_utf8(b) =~= encode_utf8(b));
    } else {
        lemma_encode_concat(a.drop_first(), b);
        assert((a + b).drop_first() =~= a.drop_first() + b);
        assert((a + b)[0] == a[0]);
        assert(encode_utf8(a + b) =~= encode_scalar(a[0] as u32) + (encode_utf8(a.drop_first())
            + encode_utf8(b)));
    }
}

pub proof fn lemma_blen_push(s: Seq<char>, c: char)
    ensures
        blen(s.push(c)) == blen(s) + encode_scalar(c as u32).len(),
{
    lemma_encode_concat(s, seq![c]);
    assert(s.push(c) =~= s + seq![c]);
    assert(seq![c].drop_first() =~= Seq::<char>::empty());
    reveal_with_fuel(encode_utf8, 2);
    assert(encode_utf8(seq![c]) =~= encode_scalar(c as u32));
}

pub proof fn lemma_blen_take_mono(s: Seq<char>, i: int, j: int)
    requires
        0 <= i <= j <= s.len(),
    ensures
        blen(s.take(i)) <= blen(s.take(j)),
        i < j ==> blen(s.take(i)) < blen(s.take(j)),
    decreases j - i,
{
    if i < j {
        lemma_blen_take_mono(s, i, j - 1);
        lemma_blen_push(s.take(j - 1), s[j - 1]);
        assert(s.take(j - 1).push(s[j - 1]) =~= s.take(j));
    }
}

/// Splitting a sequence splits its encoding.
pub proof fn lemma_blen_split(s: Seq<char>, i: int, j: int)
    requires
        0 <= i <= j <= s.len(),
    ensures
        blen(s.take(j)) == blen(s.take(i)) + blen(s.subrange(i, j)),
        blen(s.take(j)) <= blen(s),
{
    lemma_encode_concat(s.take(i), s.subrange(i, j));
    assert(s.take(j) =~= s.take(i) + s.subrange(i, j));
    lemma_encode_concat(s.take(j), s.subrange(j, s.len() as int));
    assert(s =~= s.take(j) + s.subrange(j, s.len() as int));
}

/// Byte length of the UTF-8 encoding of `v[start..end]`.
pub fn blen_range(v: &Vec<char>, start: usize, end: usize) -> (n: usize)
    requires
        start <= end <= v@.len(),
        blen(v@) <= usize::MAX,
    ensures
        n == blen(v@.subrange(start as int, end as int)),
{
    let mut n: usize = 0;
    let mut i = start;
    while i < end
        invariant
            start <= i <= end <= v@.len(),
            blen(v@) <= usize::MAX,
            n == blen(v@.subrange(start as int, i as int)),
        decreases end - i,
    {
        proof {
            lemma_blen_push(v@.subrange(start as int, i as int), v@[i as int]);
            assert(v@.subrange(start as int, i as int).push(v@[i as int]) =~= v@.subrange(
                start as int,
                i + 1,
            ));
            lemma_blen_split(v@, start as int, i + 1);
            lemma_blen_split(v@, 0, i + 1);
            assert(v@.take(0) =~= Seq::<char>::empty());
        }
        n = n + utf8_len(v[i]);
        i = i + 1;
    }
    n
}

/// The length in bytes of `s`: its UTF-8 encoding, which `usize` holds.
pub fn str_blen(s: &str) -> (n: usize)
    ensures
        n == blen(s@),
{
    s.as_bytes().len()
}

/// Byte length of the UTF-8 encoding of one character.
pub fn utf8_len(c: char) -> (n: usize)
    ensures
        n == encode_scalar(c as u32).len(),
        1 <= n <= 4,
{
    let u = c as u32;
    if u < 0x80 {
        1
    } else if u < 0x800 {
        2
    } else if u < 0x10000 {
        3
    } else {
        4
    }
}

/// ASCII lower-casing of one character; other characters are unchanged.
pub open spec fn ascii_lower(c: char) -> char {
    if 'A' <= c <= 'Z' {
        ((c as u32) + 32) as char
    } else {
        c
    }
}

pub open spec fn lower_seq(s: Seq<char>) -> Seq<char> {
    s.map_values(|c: char| ascii_lower(c))
}

pub fn to_ascii_lower(c: char) -> (r: char)
    ensures
        r == ascii_lower(c),
{
    if 'A' <= c && c <= 'Z' {
        let b = (c as u8) + 32;
        b as char
    } else {
        c
    }
}

/// ASCII lower-casing of one byte.
pub open spec fn lower_byte(b: u8) -> u8 {
    if 65 <= b <= 90 {
        (b + 32) as u8
    } else {
        b
    }
}

pub fn to_ascii_lower_byte(b: u8) -> (r: u8)
    ensures
        r == lower_byte(b),
{
    if 65 <= b && b <= 90 {
        b + 32
    } else {
        b
    }
}

} // verus!

verus! {

/// Moves `end` back over the characters that satisfy `pred`.
pub open spec fn skip_back(s: Seq<char>, end: int, pred: spec_fn(char) -> bool) -> int
    decreases end,
{
    if end > 0 && end <= s.len() && pred(s[end - 1]) {
        skip_back(s, end - 1, pred)
    } else {
        end
    }
}

pub proof fn lemma_skip_back_bounds(s: Seq<char>, end: int, pred: spec_fn(char) -> bool)
    requires
        0 <= end <= s.len(),
    ensures
        0 <= skip_back(s, end, pred) <= end,
    decreases end,
{
    if end > 0 && pred(s[end - 1]) {
        lemma_skip_back_bounds(s, end - 1, pred);
    }
}

/// `skip_back` stops at the start of the run of `pred` characters that ends
/// at `end`.
pub proof fn lemma_skip_back_run(s: Seq<char>, end: int, pred: spec_fn(char) -> bool)
    requires
        0 <= end <= s.len(),
    ensures
        0 <= skip_back(s, end, pred) <= end,
        forall|i: int| skip_back(s, end, pred) <= i < end ==> pred(#[trigger] s[i]),
        skip_back(s, end, pred) == 0 || !pred(s[skip_back(s, end, pred) - 1]),
    decreases end,
{
    if end > 0 && pred(s[end - 1]) {
        lemma_skip_back_run(s, end - 1, pred);
    }
}

/// Moves `start` forward over the characters that satisfy `pred`.
pub open spec fn skip_fwd(s: Seq<char>, start: int, pred: spec_fn(char) -> bool) -> int
    decreases s.len() - start,
{
    if 0 <= start < s.len() && pred(s[start]) {
        skip_fwd(s, start + 1, pred)
    } else {
        start
    }
}

pub proof fn lemma_skip_fwd_bounds(s: Seq<char>, start: int, pred: spec_fn(char) -> bool)
    requires
        0 <= start <= s.len(),
    ensures
        start <= skip_fwd(s, start, pred) <= s.len(),
    decreases s.len() - start,
{
    if start < s.len() && pred(s[start]) {
        lemma_skip_fwd_bounds(s, start + 1, pred);
    }
}

/// `s` without its leading and trailing whitespace.
pub open spec fn trim_spec(s: Seq<char>) -> Seq<char> {
    let a = skip_fwd(s, 0, |c: char| is_white_space(c));
    let b = skip_back(s, s.len() as int, |c: char| is_white_space(c));
    if a < b {
        s.subrange(a, b)
    } else {
        Seq::empty()
    }
}

/// Removes leading and trailing whitespace.
pub fn trim(s: &Vec<char>) -> (r: Vec<char>)
    ensures
        r@ == trim_spec(s@),
{
    let ghost ws = |c: char| is_white_space(c);
    let n = s.len();
    let mut a: usize = 0;
    while a < n && is_whitespace(s[a])
        invariant
            n == s@.len(),
            a <= n,
            ws == (|c: char| is_white_space(c)),
            skip_fwd(s@, a as int, ws) == skip_fwd(s@, 0, ws),
        decreases n - a,
    {
        assert(ws(s@[a as int]));
        a = a + 1;
    }
    let mut b: usize = n;
    while b > 0 && is_whitespace(s[b - 1])
        invariant
            n == s@.len(),
            b <= n,
            ws == (|c: char| is_white_space(c)),
            skip_back(s@, b as int, ws) == skip_back(s@, n as int, ws),
        decreases b,
    {
        assert(ws(s@[b - 1]));
        b = b - 1;
    }
    let mut r: Vec<char> = Vec::new();
    if a < b {
        let mut i = a;
        while i < b
            invariant
                a <= i <= b <= n == s@.len(),
                r@ == s@.subrange(a as int, i as int),
            decreases b - i,
        {
            r.push(s[i]);
            i = i + 1;
        }
    }
    r
}

/// `s` without its trailing `'\n'` and `'\r'` characters.
pub open spec fn trim_end_newlines_spec(s: Seq<char>) -> Seq<char> {
    s.take(skip_back(s, s.len() as int, |c: char| c == '\n' || c == '\r'))
}

pub fn trim_end_newlines(s: &Vec<char>) -> (r: Vec<char>)
    ensures
        r@ == trim_end_newlines_spec(s@),
{
    let ghost nl = |c: char| c == '\n' || c == '\r';
    let n = s.len();
    let mut b: usize = n;
    while b > 0 && (s[b - 1] == '\n' || s[b - 1] == '\r')
        invariant
            n == s@.len(),
            b <= n,
            nl == (|c: char| c == '\n' || c == '\r'),
            skip_back(s@, b as int, nl) == skip_back(s@, n as int, nl),
        decreases b,
    {
        assert(nl(s@[b - 1]));
        b = b - 1;
    }
    let mut r: Vec<char> = Vec::new();
    let mut i: usize = 0;
    while i < b
        invariant
            b <= n == s@.len(),
            i <= b,
            r@ == s@.take(i as int),
        decreases b - i,
    {
        r.push(s[i]);
        i = i + 1;
    }
    r
}

/// The end of the run of non-whitespace characters that starts at `i`.
pub open spec fn word_end(s: Seq<char>, i: int) -> int
    decreases s.len() - i,
{
    if 0 <= i < s.len() && !is_white_space(s[i]) {
        word_end(s, i + 1)
    } else {
        i
    }
}

pub proof fn lemma_word_end_bounds(s: Seq<char>, i: int)
    requires
        0 <= i <= s.len(),
    ensures
        i <= word_end(s, i) <= s.len(),
    decreases s.len() - i,
{
    if i < s.len() && !is_white_space(s[i]) {
        lemma_word_end_bounds(s, i + 1);
    }
}

/// The whitespace-separated words of `s[i..]`, in order.
pub open spec fn words_from(s: Seq<char>, i: int) -> Seq<Seq<char>>
    decreases s.len() - i,
{
    if i < 0 || i >= s.len() {
        Seq::empty()
    } else if is_white_space(s[i]) {
        words_from(s, i + 1)
    } else {
        let b = word_end(s, i);
        if b <= i || b > s.len() {
            Seq::empty()
        } else {
            seq![s.subrange(i, b)] + words_from(s, b)
        }
    }
}

/// The whitespace-separated words of `s`, as `str::split_whitespace` yields them.
pub open spec fn words(s: Seq<char>) -> Seq<Seq<char>> {
    words_from(s, 0)
}

/// Splits `s` at runs of whitespace.
pub fn split_whitespace(s: &Vec<char>) -> (r: Vec<Vec<char>>)
    ensures
        r@.len() == words(s@).len(),
        forall|k: int| 0 <= k < r@.len() ==> (#[trigger] r@[k])@ == words(s@)[k],
{
    let n = s.len();
    let mut r: Vec<Vec<char>> = Vec::new();
    let mut i: usize = 0;
    let ghost acc: Seq<Seq<char>> = Seq::empty();
    while i < n
        invariant
            n == s@.len(),
            i <= n,
            r@.len() == acc.len(),
            forall|k: int| 0 <= k < r@.len() ==> (#[trigger] r@[k])@ == acc[k],
            acc + words_from(s@, i as int) == words(s@),
        decreases n - i,
    {
        if is_whitespace(s[i]) {
            i = i + 1;
        } else {
            let a = i;
            let mut w: Vec<char> = Vec::new();
            proof {
                lemma_word_end_bounds(s@, a as int);
            }
            while i < n && !is_whitespace(s[i])
                invariant
                    n == s@.len(),
                    a <= i <= n,
                    word_end(s@, i as int) == word_end(s@, a as int),
                    w@ == s@.subrange(a as int, i as int),
                decreases n - i,
            {
                w.push(s[i]);
                i = i + 1;
            }
            proof {
                assert(word_end(s@, i as int) == i);
                lemma_word_end_bounds(s@, a as int);
                assert(words_from(s@, a as int) == seq![s@.subrange(a as int, i as int)]
                    + words_from(s@, i as int));
                assert(acc + words_from(s@, a as int) =~= acc.push(w@) + words_from(s@, i as int));
                acc = acc.push(w@);
            }
            r.push(w);
        }
    }
    proof {
        assert(acc =~= words(s@));
    }
    r
}

} // verus!

verus! {

/// The character sequences of a list of strings.
pub open spec fn strings_view(v: Seq<String>) -> Seq<Seq<char>> {
    v.map_values(|s: String| s@)
}

/// Appends the characters of `t` to `s`.
pub fn push_str(s: &mut String, t: &str)
    ensures
        final(s)@ == old(s)@ + t@,
{
    let cs = chars_of(t);
    let n = cs.len();
    let ghost s0 = s@;
    for i in 0..n
        invariant
            n == cs@.len(),
            cs@ == t@,
            s@ == s0 + cs@.take(i as int),
    {
        push_char(s, cs[i]);
        proof {
            assert(s0 + cs@.take(i + 1) =~= (s0 + cs@.take(i as int)).push(cs@[i as int]));
        }
    }
    proof {
        assert(cs@.take(n as int) =~= cs@);
    }
}

/// An owned copy of `t`.
pub fn owned(t: &str) -> (s: String)
    ensures
        s@ == t@,
{
    t.to_owned()
}

/// Whether two strings hold the same characters.
pub fn str_eq(a: &str, b: &str) -> (r: bool)
    ensures
        r == (a@ == b@),
{
    let x = chars_of(a);
    let y = chars_of(b);
    if x.len() != y.len() {
        return false;
    }
    let n = x.len();
    for i in 0..n
        invariant
            n == x@.len() == y@.len(),
            x@ == a@,
            y@ == b@,
            forall|k: int| 0 <= k < i ==> x@[k] == y@[k],
    {
        if x[i] != y[i] {
            return false;
        }
    }
    proof {
        assert(x@ =~= y@);
    }
    true
}

} // verus!
