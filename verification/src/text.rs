//! Character-level helpers shared by every text format: conversions between
//! `str`/`String` and character vectors, decimal rendering, whitespace and lines.

use vstd::prelude::*;

verus! {

/// Appends one character to a `String` (`String::push`).
#[verifier::external_body]
fn push_char(s: &mut String, c: char)
    ensures
        final(s)@ == old(s)@.push(c),
{
    s.push(c);
}

/// Appends a string slice to a `String`.
pub fn append_str(s: &mut String, t: &str)
    ensures
        final(s)@ == old(s)@ + t@,
{
    let cs = chars_of(t);
    let mut i: usize = 0;
    while i < cs.len()
        invariant
            i <= cs@.len(),
            cs@ == t@,
            s@ == old(s)@ + cs@.take(i as int),
        decreases cs@.len() - i,
    {
        push_char(s, cs[i]);
        assert(old(s)@ + cs@.take(i as int).push(cs@[i as int]) =~= old(s)@ + cs@.take(i + 1));
        i = i + 1;
    }
    assert(cs@.take(cs@.len() as int) =~= cs@);
}

/// The characters of a string slice, in order.
pub fn chars_of(s: &str) -> (v: Vec<char>)
    ensures
        v@ == s@,
{
    let mut v: Vec<char> = Vec::new();
    for c in it: s.chars()
        invariant
            v@ == it.seq().take(it.index() as int),
            it.seq() == s@,
    {
        v.push(c);
    }
    v
}

/// Builds a `String` holding exactly the given characters.
pub fn string_of(v: &[char]) -> (s: String)
    ensures
        s@ == v@,
{
    let mut s = String::new();
    let mut i: usize = 0;
    while i < v.len()
        invariant
            i <= v@.len(),
            s@ == v@.take(i as int),
        decreases v@.len() - i,
    {
        push_char(&mut s, v[i]);
        assert(v@.take(i as int).push(v@[i as int]) =~= v@.take(i + 1));
        i = i + 1;
    }
    assert(v@.take(v@.len() as int) =~= v@);
    s
}

/// The UTF-8 encoding of a string.
pub fn utf8_of(s: &String) -> (b: Vec<u8>)
    ensures
        b@ == vstd::utf8::encode_utf8(s@),
{
    s.as_str().as_bytes_vec()
}

/// A copy of `v[lo..hi]`.
pub fn slice_of(v: &[char], lo: usize, hi: usize) -> (r: Vec<char>)
    requires
        lo <= hi <= v@.len(),
    ensures
        r@ == v@.subrange(lo as int, hi as int),
{
    let mut r: Vec<char> = Vec::new();
    let mut i = lo;
    while i < hi
        invariant
            lo <= i <= hi,
            hi <= v@.len(),
            r@ == v@.subrange(lo as int, i as int),
        decreases hi - i,
    {
        r.push(v[i]);
        assert(v@.subrange(lo as int, i as int).push(v@[i as int]) =~= v@.subrange(lo as int, i + 1));
        i = i + 1;
    }
    r
}

/// Appends all of `src` to `dst`.
pub fn extend_chars(dst: &mut Vec<char>, src: &[char])
    ensures
        final(dst)@ == old(dst)@ + src@,
{
    let mut i: usize = 0;
    while i < src.len()
        invariant
            i <= src@.len(),
            dst@ == old(dst)@ + src@.take(i as int),
        decreases src@.len() - i,
    {
        dst.push(src[i]);
        assert(old(dst)@ + src@.take(i as int).push(src@[i as int]) =~= old(dst)@ + src@.take(i + 1));
        i = i + 1;
    }
    assert(src@.take(src@.len() as int) =~= src@);
}

/// Appends the characters of a string slice to `dst`.
pub fn extend_str(dst: &mut Vec<char>, s: &str)
    ensures
        final(dst)@ == old(dst)@ + s@,
{
    let cs = chars_of(s);
    extend_chars(dst, cs.as_slice());
}

/// Whether two character slices are equal.
pub fn chars_eq(a: &[char], b: &[char]) -> (r: bool)
    ensures
        r == (a@ == b@),
{
    if a.len() != b.len() {
        return false;
    }
    let mut i: usize = 0;
    while i < a.len()
        invariant
            a@.len() == b@.len(),
            i <= a@.len(),
            forall|j: int| 0 <= j < i ==> a@[j] == b@[j],
        decreases a@.len() - i,
    {
        if a[i] != b[i] {
            return false;
        }
        i = i + 1;
    }
    assert(a@ =~= b@);
    true
}

/// Whether `s[at..]` starts with `pat`.
pub open spec fn has_at(s: Seq<char>, at: int, pat: Seq<char>) -> bool {
    &&& 0 <= at
    &&& at + pat.len() <= s.len()
    &&& s.subrange(at, at + pat.len()) == pat
}

/// Whether `s[at..]` starts with `pat`.
pub fn matches_at(s: &[char], at: usize, pat: &[char]) -> (r: bool)
    requires
        at <= s@.len(),
    ensures
        r == has_at(s@, at as int, pat@),
{
    if pat.len() > s.len() - at {
        return false;
    }
    let mut i: usize = 0;
    while i < pat.len()
        invariant
            at + pat@.len() <= s@.len(),
            s@.len() == s.len(),
            i <= pat@.len(),
            forall|j: int| 0 <= j < i ==> s@[at + j] == pat@[j],
        decreases pat@.len() - i,
    {
        assert(at + i < s@.len());
        if s[at + i] != pat[i] {
            assert(s@.subrange(at as int, at + pat@.len())[i as int] != pat@[i as int]);
            return false;
        }
        i = i + 1;
    }
    assert(s@.subrange(at as int, at + pat@.len()) =~= pat@);
    true
}

// ---------------------------------------------------------------------------------------------
// whitespace

/// Spaces and tabs: the only filler characters of the line scanners.
pub open spec fn is_blank(c: char) -> bool {
    c == ' ' || c == '\t'
}

/// Unicode `White_Space`, which is what `char::is_whitespace` tests.
pub open spec fn is_unicode_ws(c: char) -> bool {
    let u = c as u32;
    ||| 0x09 <= u <= 0x0d
    ||| u == 0x20
    ||| u == 0x85
    ||| u == 0xa0
    ||| u == 0x1680
    ||| 0x2000 <= u <= 0x200a
    ||| u == 0x2028
    ||| u == 0x2029
    ||| u == 0x202f
    ||| u == 0x205f
    ||| u == 0x3000
}

/// Whether `c` is whitespace as `char::is_whitespace` defines it.
pub fn is_unicode_whitespace(c: char) -> (r: bool)
    ensures
        r == is_unicode_ws(c),
{
    let u = c as u32;
    (0x09 <= u && u <= 0x0d) || u == 0x20 || u == 0x85 || u == 0xa0 || u == 0x1680 || (0x2000 <= u
        && u <= 0x200a) || u == 0x2028 || u == 0x2029 || u == 0x202f || u == 0x205f || u == 0x3000
}

/// Number of leading characters of `s` that satisfy `p`.
pub open spec fn lead_len(s: Seq<char>, p: spec_fn(char) -> bool) -> nat
    decreases s.len(),
{
    if s.len() > 0 && p(s[0]) {
        1 + lead_len(s.drop_first(), p)
    } else {
        0
    }
}

/// Number of trailing characters of `s` that satisfy `p`.
pub open spec fn trail_len(s: Seq<char>, p: spec_fn(char) -> bool) -> nat
    decreases s.len(),
{
    if s.len() > 0 && p(s.last()) {
        1 + trail_len(s.drop_last(), p)
    } else {
        0
    }
}

/// The leading run of characters with `p` ends at the first character without it.
pub proof fn lemma_lead_len(s: Seq<char>, p: spec_fn(char) -> bool)
    ensures
        lead_len(s, p) <= s.len(),
        forall|j: int| 0 <= j < lead_len(s, p) ==> p(#[trigger] s[j]),
        lead_len(s, p) < s.len() ==> !p(s[lead_len(s, p) as int]),
    decreases s.len(),
{
    if s.len() > 0 && p(s[0]) {
        lemma_lead_len(s.drop_first(), p);
        assert forall|j: int| 0 <= j < lead_len(s, p) implies p(#[trigger] s[j]) by {
            if j > 0 {
                assert(s[j] == s.drop_first()[j - 1]);
            }
        }
    }
}

/// The leading run is exactly `k` long when the first `k` characters have `p` and the next does not.
pub proof fn lemma_lead_len_exact(s: Seq<char>, p: spec_fn(char) -> bool, k: int)
    requires
        0 <= k <= s.len(),
        forall|j: int| 0 <= j < k ==> p(#[trigger] s[j]),
        k < s.len() ==> !p(s[k]),
    ensures
        lead_len(s, p) == k,
    decreases s.len(),
{
    if k > 0 {
        assert forall|j: int| 0 <= j < k - 1 implies p(#[trigger] s.drop_first()[j]) by {
            assert(s.drop_first()[j] == s[j + 1]);
        }
        lemma_lead_len_exact(s.drop_first(), p, k - 1);
    }
}

/// The trailing run of characters with `p` starts after the last character without it.
pub proof fn lemma_trail_len(s: Seq<char>, p: spec_fn(char) -> bool)
    ensures
        trail_len(s, p) <= s.len(),
        forall|j: int| s.len() - trail_len(s, p) <= j < s.len() ==> p(#[trigger] s[j]),
        trail_len(s, p) < s.len() ==> !p(s[s.len() - trail_len(s, p) - 1]),
    decreases s.len(),
{
    if s.len() > 0 && p(s.last()) {
        lemma_trail_len(s.drop_last(), p);
        assert forall|j: int| s.len() - trail_len(s, p) <= j < s.len() implies p(#[trigger] s[j]) by {
            if j < s.len() - 1 {
                assert(s[j] == s.drop_last()[j]);
            }
        }
    }
}

/// The trailing run is exactly `k` long when the last `k` characters have `p` and the one before
/// does not.
pub proof fn lemma_trail_len_exact(s: Seq<char>, p: spec_fn(char) -> bool, k: int)
    requires
        0 <= k <= s.len(),
        forall|j: int| s.len() - k <= j < s.len() ==> p(#[trigger] s[j]),
        k < s.len() ==> !p(s[s.len() - k - 1]),
    ensures
        trail_len(s, p) == k,
    decreases s.len(),
{
    if k > 0 {
        assert forall|j: int| s.len() - 1 - (k - 1) <= j < s.len() - 1 implies p(
            #[trigger] s.drop_last()[j],
        ) by {
            assert(s.drop_last()[j] == s[j]);
        }
        lemma_trail_len_exact(s.drop_last(), p, k - 1);
    }
}

/// Index of the first character at or after `from` that is not a space or tab.
pub fn skip_blanks_at(s: &[char], from: usize) -> (r: usize)
    requires
        from <= s@.len(),
    ensures
        r == from + lead_len(s@.skip(from as int), |c: char| is_blank(c)),
        r <= s@.len(),
{
    let mut i = from;
    while i < s.len() && (s[i] == ' ' || s[i] == '\t')
        invariant
            from <= i <= s@.len(),
            forall|j: int| from <= j < i ==> is_blank(#[trigger] s@[j]),
        decreases s@.len() - i,
    {
        i = i + 1;
    }
    proof {
        let t = s@.skip(from as int);
        assert forall|j: int| 0 <= j < i - from implies (|c: char| is_blank(c))(#[trigger] t[j]) by {
            assert(t[j] == s@[from + j]);
        }
        if i < s@.len() {
            assert(t[i - from] == s@[i as int]);
        }
        lemma_lead_len_exact(t, |c: char| is_blank(c), i - from);
    }
    i
}

/// Index just past the last character before `to` that is not a space or tab, but never
/// before `from`.
pub fn trim_blanks_end(s: &[char], from: usize, to: usize) -> (r: usize)
    requires
        from <= to <= s@.len(),
    ensures
        r == to - trail_len(s@.subrange(from as int, to as int), |c: char| is_blank(c)),
        from <= r <= to,
{
    let mut i = to;
    while i > from && (s[i - 1] == ' ' || s[i - 1] == '\t')
        invariant
            from <= i <= to,
            to <= s@.len(),
            forall|j: int| i <= j < to ==> is_blank(#[trigger] s@[j]),
        decreases i - from,
    {
        i = i - 1;
    }
    proof {
        let t = s@.subrange(from as int, to as int);
        assert forall|j: int| t.len() - (to - i) <= j < t.len() implies (|c: char| is_blank(c))(
            #[trigger] t[j],
        ) by {
            assert(t[j] == s@[from + j]);
        }
        if to - i < t.len() {
            assert(t[t.len() - (to - i) - 1] == s@[i - 1]);
        }
        lemma_trail_len_exact(t, |c: char| is_blank(c), to - i);
    }
    i
}

// ---------------------------------------------------------------------------------------------
// decimal numbers

pub open spec fn digit_char(d: int) -> char {
    (('0' as int) + d) as char
}

/// The shortest decimal rendering of `n`.
pub open spec fn decimal(n: nat) -> Seq<char>
    decreases n,
{
    if n < 10 {
        seq![digit_char(n as int)]
    } else {
        decimal(n / 10).push(digit_char((n % 10) as int))
    }
}

/// The decimal rendering of `n`, left-padded with zeros to at least `width` characters.
pub open spec fn padded(n: nat, width: nat) -> Seq<char> {
    let d = decimal(n);
    if d.len() >= width {
        d
    } else {
        Seq::new((width - d.len()) as nat, |i: int| '0') + d
    }
}

/// A decimal rendering has at least one digit, and exactly one below ten.
pub proof fn lemma_decimal_len(n: nat)
    ensures
        1 <= decimal(n).len(),
        n < 10 ==> decimal(n).len() == 1,
    decreases n,
{
    if n >= 10 {
        lemma_decimal_len(n / 10);
    }
}

/// Appends the decimal rendering of `n` to `out`, zero-padded to at least `width` digits.
pub fn push_decimal(out: &mut Vec<char>, n: u64, width: usize)
    requires
        width <= 64,
    ensures
        final(out)@ == old(out)@ + padded(n as nat, width as nat),
{
    // digits, least significant first
    let mut rev: Vec<char> = Vec::new();
    let mut m = n;
    let ghost mut acc: Seq<char> = Seq::empty();
    proof {
        lemma_decimal_len(n as nat);
    }
    while m >= 10
        invariant
            decimal(n as nat) == decimal(m as nat) + acc,
            rev@.len() == acc.len(),
            forall|j: int| 0 <= j < acc.len() ==> rev@[j] == acc[acc.len() - 1 - j],
        decreases m,
    {
        let c = char_of_digit(m % 10);
        rev.push(c);
        proof {
            assert(decimal(m as nat) == decimal((m / 10) as nat).push(c));
            assert(decimal(m as nat) + acc =~= decimal((m / 10) as nat) + (seq![c] + acc));
            acc = seq![c] + acc;
        }
        m = m / 10;
    }
    let c = char_of_digit(m);
    rev.push(c);
    proof {
        assert(decimal(m as nat) == seq![c]);
        acc = seq![c] + acc;
    }
    // now decimal(n) == acc and rev is acc reversed
    let len = rev.len();
    proof {
        assert(decimal(n as nat) =~= acc);
    }
    let mut k = len;
    while k < width
        invariant
            len <= k,
            k <= width || k == len,
            out@ == old(out)@ + Seq::new((k - len) as nat, |i: int| '0'),
        decreases width - k,
    {
        out.push('0');
        proof {
            assert(old(out)@ + Seq::new((k + 1 - len) as nat, |i: int| '0') =~= out@);
        }
        k = k + 1;
    }
    let ghost pre = out@;
    let mut j = len;
    while j > 0
        invariant
            j <= len,
            len == rev@.len(),
            rev@.len() == acc.len(),
            forall|t: int| 0 <= t < acc.len() ==> rev@[t] == acc[acc.len() - 1 - t],
            out@ == pre + acc.take(len - j),
        decreases j,
    {
        j = j - 1;
        out.push(rev[j]);
        proof {
            assert(acc.take(len - j) =~= acc.take(len - j - 1).push(acc[len - j - 1]));
        }
    }
    proof {
        assert(acc.take(len as int) =~= acc);
        let zeros = if k > len { Seq::new((k - len) as nat, |i: int| '0') } else { Seq::empty() };
        if width <= len {
            assert(Seq::new((k - len) as nat, |i: int| '0') =~= Seq::<char>::empty());
        }
        assert(out@ =~= old(out)@ + padded(n as nat, width as nat));
    }
}

/// Appends the shortest decimal rendering of `n` to `out`.
pub fn push_number(out: &mut Vec<char>, n: u64)
    ensures
        final(out)@ == old(out)@ + decimal(n as nat),
{
    proof {
        lemma_decimal_len(n as nat);
    }
    push_decimal(out, n, 1);
}

pub open spec fn hex_digit_char(d: int) -> char {
    if d < 10 {
        digit_char(d)
    } else {
        (('a' as int) + d - 10) as char
    }
}

/// The shortest lower-case hexadecimal rendering of `n`.
pub open spec fn hex(n: nat) -> Seq<char>
    decreases n,
{
    if n < 16 {
        seq![hex_digit_char(n as int)]
    } else {
        hex(n / 16).push(hex_digit_char((n % 16) as int))
    }
}

fn hex_char(d: u64) -> (c: char)
    requires
        d < 16,
    ensures
        c == hex_digit_char(d as int),
{
    if d < 10 {
        char_of_digit(d)
    } else if d == 10 {
        'a'
    } else if d == 11 {
        'b'
    } else if d == 12 {
        'c'
    } else if d == 13 {
        'd'
    } else if d == 14 {
        'e'
    } else {
        'f'
    }
}

/// Appends the lower-case hexadecimal rendering of `n` to `out`.
pub fn push_hex(out: &mut Vec<char>, n: u64)
    ensures
        final(out)@ == old(out)@ + hex(n as nat),
{
    let mut rev: Vec<char> = Vec::new();
    let mut m = n;
    let ghost mut acc: Seq<char> = Seq::empty();
    while m >= 16
        invariant
            hex(n as nat) == hex(m as nat) + acc,
            rev@.len() == acc.len(),
            forall|j: int| 0 <= j < acc.len() ==> rev@[j] == acc[acc.len() - 1 - j],
        decreases m,
    {
        let c = hex_char(m % 16);
        rev.push(c);
        proof {
            assert(hex(m as nat) == hex((m / 16) as nat).push(c));
            assert(hex(m as nat) + acc =~= hex((m / 16) as nat) + (seq![c] + acc));
            acc = seq![c] + acc;
        }
        m = m / 16;
    }
    let c = hex_char(m);
    rev.push(c);
    proof {
        assert(hex(m as nat) == seq![c]);
        acc = seq![c] + acc;
        assert(hex(n as nat) =~= acc);
    }
    let len = rev.len();
    let ghost pre = out@;
    let mut j = len;
    while j > 0
        invariant
            j <= len,
            len == rev@.len(),
            rev@.len() == acc.len(),
            forall|t: int| 0 <= t < acc.len() ==> rev@[t] == acc[acc.len() - 1 - t],
            out@ == pre + acc.take(len - j),
        decreases j,
    {
        j = j - 1;
        out.push(rev[j]);
        proof {
            assert(acc.take(len - j) =~= acc.take(len - j - 1).push(acc[len - j - 1]));
        }
    }
    proof {
        assert(acc.take(len as int) =~= acc);
    }
}

fn char_of_digit(d: u64) -> (c: char)
    requires
        d < 10,
    ensures
        c == digit_char(d as int),
{
    if d == 0 {
        '0'
    } else if d == 1 {
        '1'
    } else if d == 2 {
        '2'
    } else if d == 3 {
        '3'
    } else if d == 4 {
        '4'
    } else if d == 5 {
        '5'
    } else if d == 6 {
        '6'
    } else if d == 7 {
        '7'
    } else if d == 8 {
        '8'
    } else {
        '9'
    }
}

// ---------------------------------------------------------------------------------------------
// signed numbers and joined lines

/// `n` as `format!("{:0width$}", n)` renders it: a minus sign, then the digits zero-padded so
/// that sign and digits together take at least `width` characters.
pub open spec fn signed_padded(n: int, width: nat) -> Seq<char> {
    if n < 0 {
        seq!['-'] + padded((-n) as nat, if width > 0 {
            (width - 1) as nat
        } else {
            0
        })
    } else {
        padded(n as nat, width)
    }
}

/// Appends `n` rendered as `format!("{:0width$}", n)` does.
pub fn push_signed(out: &mut Vec<char>, n: i64, width: usize)
    requires
        width <= 64,
    ensures
        final(out)@ == old(out)@ + signed_padded(n as int, width as nat),
{
    if n < 0 {
        out.push('-');
        let a: u64 = if n == i64::MIN {
            9223372036854775808u64
        } else {
            (-n) as u64
        };
        let w = if width > 0 {
            width - 1
        } else {
            0
        };
        push_decimal(out, a, w);
        assert(out@ =~= old(out)@ + signed_padded(n as int, width as nat));
    } else {
        push_decimal(out, n as u64, width);
    }
}

/// The lines joined with `\n` between them.
pub open spec fn join_lines(v: Seq<Seq<char>>) -> Seq<char>
    decreases v.len(),
{
    if v.len() == 0 {
        Seq::empty()
    } else if v.len() == 1 {
        v[0]
    } else {
        join_lines(v.drop_last()) + seq!['\n'] + v.last()
    }
}

/// The characters of each vector.
pub open spec fn chars_view(v: Seq<Vec<char>>) -> Seq<Seq<char>> {
    v.map_values(|l: Vec<char>| l@)
}

/// The elements of `v` in reverse order.
pub fn reversed<T>(v: Vec<T>) -> (r: Vec<T>)
    ensures
        r@ == v@.reverse(),
{
    let ghost orig = v@;
    let mut v = v;
    let mut rev: Vec<T> = Vec::new();
    while v.len() > 0
        invariant
            v@.len() + rev@.len() == orig.len(),
            v@ == orig.take(v@.len() as int),
            forall|j: int| 0 <= j < rev@.len() ==> #[trigger] rev@[j] == orig[orig.len() - 1 - j],
        decreases v@.len(),
    {
        let x = v.pop().unwrap();
        rev.push(x);
        assert(v@ =~= orig.take(v@.len() as int));
    }
    assert(rev@ =~= orig.reverse());
    rev
}

/// Appends the lines joined with `\n` between them.
pub fn push_joined(out: &mut Vec<char>, v: &Vec<Vec<char>>)
    ensures
        final(out)@ == old(out)@ + join_lines(chars_view(v@)),
{
    let ghost views = chars_view(v@);
    let mut i: usize = 0;
    while i < v.len()
        invariant
            i <= v@.len(),
            views == chars_view(v@),
            out@ == old(out)@ + join_lines(views.take(i as int)),
        decreases v@.len() - i,
    {
        if i > 0 {
            out.push('\n');
        }
        extend_chars(out, v[i].as_slice());
        proof {
            let t = views.take(i + 1);
            assert(t.drop_last() =~= views.take(i as int));
            assert(t.last() == v@[i as int]@);
            if i == 0 {
                assert(views.take(0) =~= Seq::<Seq<char>>::empty());
            }
        }
        i = i + 1;
    }
    assert(views.take(v@.len() as int) =~= views);
}

} // verus!
