use vstd::prelude::*;
use vstd::string::*;

verus! {

/// The character of a digit below sixteen, in lower case.
pub open spec fn hex_char(d: nat) -> char {
    if d == 0 { '0' } else if d == 1 { '1' } else if d == 2 { '2' } else if d == 3 { '3' }
    else if d == 4 { '4' } else if d == 5 { '5' } else if d == 6 { '6' } else if d == 7 { '7' }
    else if d == 8 { '8' } else if d == 9 { '9' } else if d == 10 { 'a' } else if d == 11 { 'b' }
    else if d == 12 { 'c' } else if d == 13 { 'd' } else if d == 14 { 'e' } else { 'f' }
}

/// The decimal digits of `n`, most significant first, without leading zeros.
pub open spec fn decimal(n: nat) -> Seq<char>
    decreases n,
{
    if n < 10 {
        seq![hex_char(n)]
    } else {
        decimal(n / 10).push(hex_char(n % 10))
    }
}

/// The `n` lowest hexadecimal digits of `v`, most significant first.
pub open spec fn hex_digits(v: nat, n: nat) -> Seq<char>
    decreases n,
{
    if n == 0 {
        Seq::empty()
    } else {
        hex_digits(v / 16, (n - 1) as nat).push(hex_char(v % 16))
    }
}

/// The number that decimal digits spell, most significant first.
pub open spec fn decimal_value(s: Seq<char>) -> int
    decreases s.len(),
{
    if s.len() == 0 {
        0
    } else {
        decimal_value(s.drop_last()) * 10 + (s.last() as int - '0' as int)
    }
}

proof fn lemma_decimal_digit(d: nat)
    requires
        d < 10,
    ensures
        '0' <= hex_char(d) <= '9',
        hex_char(d) as int - '0' as int == d,
{
}

/// The decimal text of a number reads back as that number: it is made of
/// the digits '0' to '9', has no leading zero, and spells the number.
pub proof fn lemma_decimal_reads_back(n: nat)
    ensures
        decimal(n).len() >= 1,
        forall|i: int| 0 <= i < decimal(n).len() ==> '0' <= #[trigger] decimal(n)[i] <= '9',
        decimal(n).len() > 1 ==> decimal(n)[0] != '0',
        decimal_value(decimal(n)) == n,
    decreases n,
{
    if n < 10 {
        lemma_decimal_digit(n);
        let d = decimal(n);
        assert(d.drop_last() =~= Seq::<char>::empty());
        assert(decimal_value(d.drop_last()) == 0);
        assert(d.last() == hex_char(n));
    } else {
        let m = n / 10;
        lemma_decimal_reads_back(m);
        lemma_decimal_digit(n % 10);
        let d = decimal(n);
        assert(d.drop_last() =~= decimal(m));
        assert forall|i: int| 0 <= i < d.len() implies '0' <= #[trigger] d[i] <= '9' by {
            if i < d.len() - 1 {
                assert(d[i] == decimal(m)[i]);
            }
        }
        if m < 10 {
            lemma_decimal_digit(m);
            assert(decimal(m)[0] == hex_char(m));
            assert(hex_char(m) != '0');
        } else {
            let k = m / 10;
            if k < 10 {
                assert(decimal(k).len() == 1);
            } else {
                assert(decimal(k).len() >= 1);
            }
            assert(decimal(m).len() >= 2);
        }
        assert(d[0] == decimal(m)[0]);
        assert(d.last() == hex_char(n % 10));
        assert(decimal_value(d) == decimal_value(decimal(m)) * 10 + (n % 10));
    }
}

/// The character of a digit below sixteen.
pub fn digit_char(d: u8) -> (c: char)
    requires
        d < 16,
    ensures
        c == hex_char(d as nat),
{
    match d {
        0 => '0', 1 => '1', 2 => '2', 3 => '3', 4 => '4', 5 => '5', 6 => '6', 7 => '7',
        8 => '8', 9 => '9', 10 => 'a', 11 => 'b', 12 => 'c', 13 => 'd', 14 => 'e', _ => 'f',
    }
}

/// Appends one character to a string (std's `String::push`).
#[verifier::external_body]
pub(crate) fn push_char(s: &mut String, c: char)
    ensures
        final(s)@ == old(s)@.push(c),
{
    s.push(c);
}

/// A string holding the given text.
pub fn text(s: &str) -> (r: String)
    ensures
        r@ == s@,
{
    String::from_str(s)
}

/// Appends the decimal digits of `n`.
pub fn push_decimal(s: &mut String, n: u64)
    ensures
        final(s)@ == old(s)@ + decimal(n as nat),
    decreases n,
{
    if n >= 10 {
        push_decimal(s, n / 10);
    }
    let d: u8 = (n % 10) as u8;
    push_char(s, digit_char(d));
    proof {
        assert(n >= 10 ==> decimal(n as nat) == decimal((n / 10) as nat).push(hex_char((n % 10) as nat)));
    }
}

/// The decimal text of a count.
pub fn usize_text(n: usize) -> (r: String)
    ensures
        r@ == decimal(n as nat),
{
    let mut s = String::new();
    push_decimal(&mut s, n as u64);
    proof {
        assert(s@ =~= decimal(n as nat));
    }
    s
}

/// Appends the `n` lowest hexadecimal digits of `v`.
pub fn push_hex_digits(s: &mut String, v: u128, n: u32)
    ensures
        final(s)@ == old(s)@ + hex_digits(v as nat, n as nat),
    decreases n,
{
    if n > 0 {
        push_hex_digits(s, v / 16, n - 1);
        let d: u8 = (v % 16) as u8;
        push_char(s, digit_char(d));
        proof {
            assert(hex_digits(v as nat, n as nat) == hex_digits((v / 16) as nat, (n - 1) as nat).push(hex_char((v % 16) as nat)));
        }
    } else {
        proof {
            assert(old(s)@ + hex_digits(v as nat, 0) =~= old(s)@);
        }
    }
}


/// The characters with Unicode's White_Space property.
pub open spec fn white_space(c: char) -> bool {
    ('\u{9}' <= c && c <= '\u{d}') || c == ' ' || c == '\u{85}' || c == '\u{a0}' || c == '\u{1680}'
        || ('\u{2000}' <= c && c <= '\u{200a}') || c == '\u{2028}' || c == '\u{2029}' || c == '\u{202f}'
        || c == '\u{205f}' || c == '\u{3000}'
}

/// Whether a character is white space: the test of std's
/// `char::is_whitespace`, whose documentation defines it by Unicode's
/// White_Space property.
pub fn is_whitespace(c: char) -> (r: bool)
    ensures
        r == white_space(c),
{
    ('\u{9}' <= c && c <= '\u{d}') || c == ' ' || c == '\u{85}' || c == '\u{a0}' || c == '\u{1680}'
        || ('\u{2000}' <= c && c <= '\u{200a}') || c == '\u{2028}' || c == '\u{2029}' || c == '\u{202f}'
        || c == '\u{205f}' || c == '\u{3000}'
}

/// The position of the first character of `s` that is one of `markers`,
/// or the length of `s` when there is none.
pub open spec fn first_marker(s: Seq<char>, markers: Seq<char>) -> int
    decreases s.len(),
{
    if s.len() == 0 {
        0
    } else if markers.contains(s[0]) {
        0
    } else {
        1 + first_marker(s.drop_first(), markers)
    }
}

/// `s` without leading white space.
pub open spec fn trim_start(s: Seq<char>) -> Seq<char>
    decreases s.len(),
{
    if s.len() > 0 && white_space(s[0]) {
        trim_start(s.drop_first())
    } else {
        s
    }
}

/// `s` without trailing white space.
pub open spec fn trim_end(s: Seq<char>) -> Seq<char>
    decreases s.len(),
{
    if s.len() > 0 && white_space(s.last()) {
        trim_end(s.drop_last())
    } else {
        s
    }
}

/// A line without its comment: the text before the first comment marker,
/// with the white space around it taken off.
pub open spec fn stripped(s: Seq<char>, markers: Seq<char>) -> Seq<char> {
    trim_end(trim_start(s.take(first_marker(s, markers))))
}

proof fn lemma_first_marker(s: Seq<char>, markers: Seq<char>)
    ensures
        0 <= first_marker(s, markers) <= s.len(),
        forall|j: int| 0 <= j < first_marker(s, markers) ==> !markers.contains(#[trigger] s[j]),
        first_marker(s, markers) < s.len() ==> markers.contains(s[first_marker(s, markers)]),
    decreases s.len(),
{
    if s.len() > 0 && !markers.contains(s[0]) {
        lemma_first_marker(s.drop_first(), markers);
        assert forall|j: int| 0 <= j < first_marker(s, markers) implies !markers.contains(#[trigger] s[j]) by {
            if j > 0 {
                assert(s[j] == s.drop_first()[j - 1]);
            }
        }
    }
}

proof fn lemma_trim_start_skip(s: Seq<char>, i: int)
    requires
        0 <= i <= s.len(),
        forall|j: int| 0 <= j < i ==> white_space(#[trigger] s[j]),
    ensures
        trim_start(s) == trim_start(s.skip(i)),
    decreases i,
{
    if i > 0 {
        assert(s.skip(1) =~= s.drop_first());
        lemma_trim_start_skip(s.drop_first(), i - 1);
        assert(s.drop_first().skip(i - 1) =~= s.skip(i));
    } else {
        assert(s.skip(0) =~= s);
    }
}

proof fn lemma_trim_end_take(s: Seq<char>, k: int)
    requires
        0 <= k <= s.len(),
        forall|j: int| k <= j < s.len() ==> white_space(#[trigger] s[j]),
    ensures
        trim_end(s) == trim_end(s.take(k)),
    decreases s.len() - k,
{
    if k < s.len() {
        assert(s.take(s.len() - 1) =~= s.drop_last());
        lemma_trim_end_take(s.drop_last(), k);
        assert(s.drop_last().take(k) =~= s.take(k));
    } else {
        assert(s.take(k) =~= s);
    }
}

proof fn lemma_trim_start_shape(t: Seq<char>) -> (a: int)
    ensures
        0 <= a <= t.len(),
        trim_start(t) == t.skip(a),
        forall|j: int| 0 <= j < a ==> white_space(#[trigger] t[j]),
        a < t.len() ==> !white_space(t[a]),
    decreases t.len(),
{
    if t.len() > 0 && white_space(t[0]) {
        let b = lemma_trim_start_shape(t.drop_first());
        assert(t.drop_first().skip(b) =~= t.skip(b + 1));
        assert forall|j: int| 0 <= j < b + 1 implies white_space(#[trigger] t[j]) by {
            if j > 0 {
                assert(t[j] == t.drop_first()[j - 1]);
            }
        }
        if b + 1 < t.len() {
            assert(t[b + 1] == t.drop_first()[b]);
        }
        b + 1
    } else {
        assert(t.skip(0) =~= t);
        0
    }
}

proof fn lemma_trim_end_shape(t: Seq<char>) -> (b: int)
    ensures
        0 <= b <= t.len(),
        trim_end(t) == t.take(b),
        forall|j: int| b <= j < t.len() ==> white_space(#[trigger] t[j]),
        b > 0 ==> !white_space(t[b - 1]),
    decreases t.len(),
{
    if t.len() > 0 && white_space(t.last()) {
        let b = lemma_trim_end_shape(t.drop_last());
        assert(t.drop_last().take(b) =~= t.take(b));
        assert forall|j: int| b <= j < t.len() implies white_space(#[trigger] t[j]) by {
            if j < t.len() - 1 {
                assert(t[j] == t.drop_last()[j]);
            }
        }
        if b > 0 {
            assert(t[b - 1] == t.drop_last()[b - 1]);
        }
        b
    } else {
        assert(t.take(t.len() as int) =~= t);
        t.len() as int
    }
}

/// What is left of a line once its comment is cut: the part of the line
/// before its first marker, with only white space taken off either side.
/// It holds no marker, neither starts nor ends with white space, and the
/// line before it and between it and the marker (or the end) is white space.
pub proof fn lemma_stripped_shape(s: Seq<char>, markers: Seq<char>)
    ensures
        forall|j: int| 0 <= j < first_marker(s, markers) ==> !markers.contains(#[trigger] s[j]),
        0 <= first_marker(s, markers) <= s.len(),
        first_marker(s, markers) < s.len() ==> markers.contains(s[first_marker(s, markers)]),
        exists|a: int, b: int| {
            &&& 0 <= a <= b <= first_marker(s, markers)
            &&& stripped(s, markers) == #[trigger] s.subrange(a, b)
            &&& forall|j: int| 0 <= j < a ==> white_space(#[trigger] s[j])
            &&& forall|j: int| b <= j < first_marker(s, markers) ==> white_space(#[trigger] s[j])
            &&& a < b ==> !white_space(s[a]) && !white_space(s[b - 1])
        },
{
    lemma_first_marker(s, markers);
    let f = first_marker(s, markers);
    let p = s.take(f);
    let a = lemma_trim_start_shape(p);
    let q = p.skip(a);
    let c = lemma_trim_end_shape(q);
    let b = a + c;
    assert(stripped(s, markers) == q.take(c));
    assert(q.take(c) =~= s.subrange(a, b));
    assert forall|j: int| 0 <= j < a implies white_space(#[trigger] s[j]) by {
        assert(s[j] == p[j]);
    }
    assert forall|j: int| b <= j < f implies white_space(#[trigger] s[j]) by {
        assert(s[j] == q[j - a]);
    }
    if a < b {
        assert(s[a] == p[a]);
        assert(s[b - 1] == q[c - 1]);
        assert(q[0] == p[a]);
    }
}

/// Cuts a line at its first comment marker and trims the white space
/// around what is left.
pub fn strip_comment(input: &str, markers: &[char]) -> (r: String)
    ensures
        r@ == stripped(input@, markers@),
{
    let ghost s = input@;
    let n = input.unicode_len();
    proof {
        lemma_first_marker(s, markers@);
    }
    let mut cut: usize = 0;
    while cut < n
        invariant
            n == s.len(),
            s == input@,
            cut <= first_marker(s, markers@),
            0 <= first_marker(s, markers@) <= s.len(),
            forall|j: int| 0 <= j < first_marker(s, markers@) ==> !markers@.contains(#[trigger] s[j]),
            first_marker(s, markers@) < s.len() ==> markers@.contains(s[first_marker(s, markers@)]),
        ensures
            cut == first_marker(s, markers@),
            0 <= first_marker(s, markers@) <= s.len(),
        decreases n - cut,
    {
        let c = input.get_char(cut);
        let mut k: usize = 0;
        let mut hit = false;
        while k < markers.len()
            invariant
                k <= markers@.len(),
                hit <==> exists|m: int| 0 <= m < k && markers@[m] == c,
            decreases markers@.len() - k,
        {
            if markers[k] == c {
                hit = true;
            }
            k = k + 1;
        }
        if hit {
            proof {
                let m = choose|m: int| 0 <= m < markers@.len() && markers@[m] == c;
                assert(markers@.contains(s[cut as int]));
                if cut < first_marker(s, markers@) {
                    assert(!markers@.contains(s[cut as int]));
                }
            }
            break;
        }
        proof {
            if cut as int == first_marker(s, markers@) {
                let w = s[cut as int];
                assert(markers@.contains(w));
                let m = choose|m: int| 0 <= m < markers@.len() && markers@[m] == w;
                assert(false);
            }
        }
        cut = cut + 1;
    }
    let ghost p = s.take(cut as int);
    let mut a: usize = 0;
    while a < cut && is_whitespace(input.get_char(a))
        invariant
            a <= cut,
            cut <= n,
            n == s.len(),
            s == input@,
            p == s.take(cut as int),
            forall|j: int| 0 <= j < a ==> white_space(#[trigger] p[j]),
        decreases cut - a,
    {
        a = a + 1;
    }
    proof {
        lemma_trim_start_skip(p, a as int);
        if a < cut {
            assert(!white_space(p[a as int]));
            assert(p.skip(a as int)[0] == p[a as int]);
        }
        assert(trim_start(p) == p.skip(a as int));
    }
    let ghost q = p.skip(a as int);
    let mut b: usize = cut;
    while b > a && is_whitespace(input.get_char(b - 1))
        invariant
            a <= b <= cut,
            cut <= n,
            n == s.len(),
            s == input@,
            q == p.skip(a as int),
            p == s.take(cut as int),
            forall|j: int| b - a <= j < q.len() ==> white_space(#[trigger] q[j]),
        decreases b - a,
    {
        b = b - 1;
    }
    proof {
        lemma_trim_end_take(q, (b - a) as int);
        let t = q.take((b - a) as int);
        if b > a {
            assert(!white_space(t.last()));
        }
        assert(trim_end(t) == t);
    }
    let mut r = String::new();
    let mut i: usize = a;
    while i < b
        invariant
            a <= i <= b,
            b <= cut,
            cut <= n,
            n == s.len(),
            s == input@,
            r@ =~= s.subrange(a as int, i as int),
        decreases b - i,
    {
        push_char(&mut r, input.get_char(i));
        i = i + 1;
    }
    proof {
        assert(s.subrange(a as int, b as int) =~= q.take((b - a) as int));
    }
    r
}

} // verus!

verus! {

/// `s` without the repeated "Bearer" words it starts with.
pub open spec fn strip_bearer(s: Seq<char>) -> Seq<char>
    decreases s.len(),
{
    if s.len() >= 6 && s.take(6) == "Bearer"@ {
        strip_bearer(s.skip(6))
    } else {
        s
    }
}

/// The token of an `Authorization` header: the text after the leading
/// "Bearer" words, with the white space around it taken off.
pub fn bearer_token(header: &str) -> (r: String)
    ensures
        r@ == trim_end(trim_start(strip_bearer(header@))),
{
    let ghost s = header@;
    let n = header.unicode_len();
    proof {
        reveal_strlit("Bearer");
    }
    let mut i: usize = 0;
    proof {
        assert(s.skip(0) =~= s);
    }
    while n - i >= 6 && header.get_char(i) == 'B' && header.get_char(i + 1) == 'e'
        && header.get_char(i + 2) == 'a' && header.get_char(i + 3) == 'r' && header.get_char(i + 4) == 'e'
        && header.get_char(i + 5) == 'r'
        invariant
            n == s.len(),
            s == header@,
            i <= n,
            strip_bearer(s) == strip_bearer(s.skip(i as int)),
        decreases n - i,
    {
        proof {
            reveal_strlit("Bearer");
            assert(s.skip(i as int).take(6) =~= "Bearer"@);
            assert(s.skip(i as int).skip(6) =~= s.skip(i + 6));
        }
        i = i + 6;
    }
    proof {
        if s.skip(i as int).len() >= 6 && s.skip(i as int).take(6) == "Bearer"@ {
            assert(s.skip(i as int).take(6)[0] == s[i as int]);
            assert(s.skip(i as int).take(6)[1] == s[i + 1]);
            assert(s.skip(i as int).take(6)[2] == s[i + 2]);
            assert(s.skip(i as int).take(6)[3] == s[i + 3]);
            assert(s.skip(i as int).take(6)[4] == s[i + 4]);
            assert(s.skip(i as int).take(6)[5] == s[i + 5]);
        }
        assert(strip_bearer(s.skip(i as int)) == s.skip(i as int));
    }
    let mut rest = String::new();
    let mut k: usize = i;
    while k < n
        invariant
            i <= k <= n,
            n == s.len(),
            s == header@,
            rest@ =~= s.subrange(i as int, k as int),
        decreases n - k,
    {
        push_char(&mut rest, header.get_char(k));
        k = k + 1;
    }
    let no_markers: Vec<char> = Vec::new();
    proof {
        assert(rest@ =~= s.skip(i as int));
        lemma_first_marker(rest@, no_markers@);
        if first_marker(rest@, no_markers@) < rest@.len() {
            assert(no_markers@.contains(rest@[first_marker(rest@, no_markers@)]));
        }
        assert(rest@.take(first_marker(rest@, no_markers@)) =~= rest@);
    }
    strip_comment(rest.as_str(), no_markers.as_slice())
}

} // verus!
