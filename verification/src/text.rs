//! Text: comparing it and building it out of pieces.

use vstd::prelude::*;
use vstd::string::*;

verus! {

/// `str`'s `==`: two strings are equal exactly when they hold the same characters in the same
/// order.
pub assume_specification[ <str as PartialEq>::eq ](s: &str, other: &str) -> (same: bool)
    ensures
        same == (s@ == other@),
;

/// The character of a decimal digit.
pub open spec fn digit(d: nat) -> char {
    if d == 0 {
        '0'
    } else if d == 1 {
        '1'
    } else if d == 2 {
        '2'
    } else if d == 3 {
        '3'
    } else if d == 4 {
        '4'
    } else if d == 5 {
        '5'
    } else if d == 6 {
        '6'
    } else if d == 7 {
        '7'
    } else if d == 8 {
        '8'
    } else {
        '9'
    }
}

/// A number in decimal.
pub open spec fn digits(n: nat) -> Seq<char>
    decreases n,
{
    if n < 10 {
        seq![digit(n)]
    } else {
        digits(n / 10).push(digit(n % 10))
    }
}

/// A number in decimal, with a sign where it is below zero.
pub open spec fn decimal(v: int) -> Seq<char> {
    if v < 0 {
        seq!['-'] + digits((-v) as nat)
    } else {
        digits(v as nat)
    }
}

/// The characters of a string.
pub fn chars_of(s: &str) -> (out: Vec<char>)
    ensures
        out@ == s@,
{
    let mut out: Vec<char> = Vec::new();
    for c in it: s.chars()
        invariant
            out@ == s@.take(it.index() as int),
            it.seq() == s@,
    {
        out.push(c);
    }
    out
}

fn digit_text(d: u64) -> (t: &'static str)
    requires
        d < 10,
    ensures
        t@ == seq![digit(d as nat)],
{
    proof {
        reveal_strlit("0");
        reveal_strlit("1");
        reveal_strlit("2");
        reveal_strlit("3");
        reveal_strlit("4");
        reveal_strlit("5");
        reveal_strlit("6");
        reveal_strlit("7");
        reveal_strlit("8");
        reveal_strlit("9");
    }
    let t = match d {
        0 => "0",
        1 => "1",
        2 => "2",
        3 => "3",
        4 => "4",
        5 => "5",
        6 => "6",
        7 => "7",
        8 => "8",
        _ => "9",
    };
    assert(t@ =~= seq![digit(d as nat)]);
    t
}

fn push_digits(out: &mut String, n: u64)
    ensures
        final(out)@ == old(out)@ + digits(n as nat),
    decreases n,
{
    if n >= 10 {
        push_digits(out, n / 10);
    }
    let ghost sofar = out@;
    out.append(digit_text(n % 10));
    assert(out@ =~= old(out)@ + digits(n as nat));
}

/// Add a number in decimal.
pub fn push_int(out: &mut String, v: i64)
    ensures
        final(out)@ == old(out)@ + decimal(v as int),
{
    if v < 0 {
        proof {
            reveal_strlit("-");
        }
        out.append("-");
        let magnitude: u64 = if v == i64::MIN { 0x8000_0000_0000_0000 } else { (-v) as u64 };
        push_digits(out, magnitude);
        assert(out@ =~= old(out)@ + decimal(v as int));
    } else {
        push_digits(out, v as u64);
    }
}

/// Add a count in decimal.
pub fn push_count(out: &mut String, n: usize)
    ensures
        final(out)@ == old(out)@ + decimal(n as int),
{
    push_digits(out, n as u64);
}

/// White space, as Unicode has it.
pub open spec fn is_space(c: char) -> bool {
    let n = c as u32;
    ||| 0x9 <= n <= 0xd
    ||| n == 0x20
    ||| n == 0x85
    ||| n == 0xa0
    ||| n == 0x1680
    ||| 0x2000 <= n <= 0x200a
    ||| n == 0x2028
    ||| n == 0x2029
    ||| n == 0x202f
    ||| n == 0x205f
    ||| n == 0x3000
}

pub fn space(c: char) -> (b: bool)
    ensures
        b == is_space(c),
{
    let n: u32 = c as u32;
    (0x9 <= n && n <= 0xd) || n == 0x20 || n == 0x85 || n == 0xa0 || n == 0x1680 || (0x2000 <= n
        && n <= 0x200a) || n == 0x2028 || n == 0x2029 || n == 0x202f || n == 0x205f || n == 0x3000
}

/// The text without white space at its front.
pub open spec fn front_trimmed(s: Seq<char>) -> Seq<char>
    decreases s.len(),
{
    if s.len() > 0 && is_space(s[0]) {
        front_trimmed(s.drop_first())
    } else {
        s
    }
}

/// The text without white space at its end.
pub open spec fn end_trimmed(s: Seq<char>) -> Seq<char>
    decreases s.len(),
{
    if s.len() > 0 && is_space(s.last()) {
        end_trimmed(s.drop_last())
    } else {
        s
    }
}

/// The text without white space around it.
pub open spec fn trimmed(s: Seq<char>) -> Seq<char> {
    end_trimmed(front_trimmed(s))
}

/// The characters of a text without white space around it.
fn trim(s: &str) -> (out: Vec<char>)
    ensures
        out@ == trimmed(s@),
{
    let chars = chars_of(s);
    let mut i: usize = 0;
    assert(chars@.skip(0) =~= chars@);
    while i < chars.len() && space(chars[i])
        invariant
            i <= chars.len(),
            front_trimmed(chars@) == front_trimmed(chars@.skip(i as int)),
        decreases chars.len() - i,
    {
        assert(chars@.skip(i as int).drop_first() =~= chars@.skip(i + 1));
        i += 1;
    }
    let ghost front = chars@.skip(i as int);
    assert(front_trimmed(chars@) == front);
    let mut j: usize = chars.len();
    assert(chars@.subrange(i as int, j as int) =~= front);
    while j > i && space(chars[j - 1])
        invariant
            i <= j <= chars.len(),
            end_trimmed(front) == end_trimmed(chars@.subrange(i as int, j as int)),
        decreases j,
    {
        assert(chars@.subrange(i as int, j as int).drop_last() =~= chars@.subrange(
            i as int,
            j - 1,
        ));
        j -= 1;
    }
    let ghost kept = chars@.subrange(i as int, j as int);
    assert(trimmed(s@) == kept);
    let mut out: Vec<char> = Vec::new();
    let mut k: usize = i;
    while k < j
        invariant
            i <= k <= j <= chars.len(),
            out@ == chars@.subrange(i as int, k as int),
        decreases j - k,
    {
        out.push(chars[k]);
        assert(out@ =~= chars@.subrange(i as int, k + 1));
        k += 1;
    }
    out
}

/// Whether a text starts with another.
fn begins(chars: &Vec<char>, prefix: &str) -> (b: bool)
    ensures
        b == prefix@.is_prefix_of(chars@),
{
    let want = chars_of(prefix);
    if want.len() > chars.len() {
        return false;
    }
    let mut k: usize = 0;
    while k < want.len()
        invariant
            k <= want.len() <= chars.len(),
            want@ == prefix@,
            forall|m: int| 0 <= m < k ==> chars@[m] == want@[m],
        decreases want.len() - k,
    {
        if chars[k] != want[k] {
            assert(prefix@[k as int] != chars@[k as int]);
            return false;
        }
        k += 1;
    }
    assert(want@ =~= chars@.take(want@.len() as int));
    true
}

/// Whether the text is a word, white space around it aside.
pub fn trims_to(s: &str, word: &str) -> (b: bool)
    ensures
        b == (trimmed(s@) == word@),
{
    let chars = trim(s);
    let same = chars.len() == chars_of(word).len() && begins(&chars, word);
    assert(same ==> chars@ =~= word@);
    same
}

/// Whether the text starts with a word, white space in front of it and at its end aside.
pub fn trims_to_start(s: &str, word: &str) -> (b: bool)
    ensures
        b == word@.is_prefix_of(trimmed(s@)),
{
    begins(&trim(s), word)
}

/// Whether the text starts with another.
pub fn starts_with(s: &str, prefix: &str) -> (b: bool)
    ensures
        b == prefix@.is_prefix_of(s@),
{
    begins(&chars_of(s), prefix)
}

/// Two pieces of text, one after the other.
pub fn concat(a: &str, b: &str) -> (out: String)
    ensures
        out@ == a@ + b@,
{
    let mut out = a.to_owned();
    out.append(b);
    out
}

/// Whether two pieces of text are the same, where one may be missing.
pub fn same_option(a: &Option<String>, b: &Option<String>) -> (same: bool)
    ensures
        same == (text_of(*a) == text_of(*b)),
{
    match (a, b) {
        (Some(x), Some(y)) => *x == *y,
        (None, None) => true,
        _ => false,
    }
}

/// A piece of text that may be missing.
pub open spec fn text_of(a: Option<String>) -> Option<Seq<char>> {
    match a {
        Some(x) => Some(x@),
        None => None,
    }
}

/// Numbers with the same decimal text are the same.
pub proof fn lemma_digits_injective(m: nat, n: nat)
    requires
        digits(m) == digits(n),
    ensures
        m == n,
    decreases m,
{
    let (a, b) = (digits(m), digits(n));
    lemma_digits_plain(m);
    lemma_digits_plain(n);
    assert(a.last() == b.last());
    if m >= 10 {
        assert(a.drop_last() =~= digits(m / 10));
        lemma_digits_plain(m / 10);
        assert(b.len() > 1);
        assert(b.drop_last() =~= digits(n / 10));
        lemma_digits_injective(m / 10, n / 10);
    } else if n >= 10 {
        lemma_digits_plain(n / 10);
        assert(b.len() > 1);
    }
}

/// A number's decimal text is not empty and holds no underscore.
proof fn lemma_digits_plain(n: nat)
    ensures
        digits(n).len() > 0,
        n >= 10 ==> digits(n).len() > 1,
        !digits(n).contains('_'),
    decreases n,
{
    if n >= 10 {
        lemma_digits_plain(n / 10);
        crate::lists::lemma_push_contains(digits(n / 10), digit(n % 10), '_');
    }
}

/// A name numbered after an underscore tells the name and the number.
pub proof fn lemma_numbered(x: Seq<char>, m: nat, y: Seq<char>, n: nat)
    requires
        x + "_"@ + digits(m) == y + "_"@ + digits(n),
    ensures
        x == y,
        m == n,
{
    reveal_strlit("_");
    let (a, b) = (digits(m), digits(n));
    let (s, t) = (x + "_"@ + a, y + "_"@ + b);
    lemma_digits_plain(m);
    lemma_digits_plain(n);
    assert(s.len() == x.len() + 1 + a.len() && t.len() == y.len() + 1 + b.len());
    assert(s == t);
    if a.len() < b.len() {
        let k = x.len() as int;
        assert(s[k] == '_');
        assert(t[k] == b[k - y.len() - 1]);
        assert(b.contains('_'));
    } else if b.len() < a.len() {
        let k = y.len() as int;
        assert(t[k] == '_');
        assert(s[k] == a[k - x.len() - 1]);
        assert(a.contains('_'));
    }
    assert(x =~= s.take(x.len() as int));
    assert(y =~= t.take(y.len() as int));
    assert(a =~= s.skip(x.len() as int + 1));
    assert(b =~= t.skip(y.len() as int + 1));
    lemma_digits_injective(m, n);
}

/// The same text again, if there is any.
pub fn copy_option(a: &Option<String>) -> (copy: Option<String>)
    ensures
        copy == *a,
{
    match a {
        Some(s) => Some(s.clone()),
        None => None,
    }
}

/// Every character is white space.
pub open spec fn blank(s: Seq<char>) -> bool {
    forall|i: int| 0 <= i < s.len() ==> is_space(#[trigger] s[i])
}

/// Trimming takes the white space around a text and nothing of the text: what starts and ends with something
/// else is kept whole, and what is all white space is gone.
pub proof fn law_trimmed(a: Seq<char>, s: Seq<char>, b: Seq<char>)
    requires
        blank(a),
        blank(b),
        s.len() > 0 ==> !is_space(s[0]) && !is_space(s.last()),
    ensures
        trimmed(a + s + b) == s,
    decreases a.len() + b.len(),
{
    if a.len() > 0 {
        let (all, rest) = (a + s + b, a.drop_first() + s + b);
        assert(all.drop_first() =~= rest);
        assert(all[0] == a[0]);
        assert(blank(a.drop_first()));
        law_trimmed(a.drop_first(), s, b);
    } else if s.len() == 0 {
        assert(a + s + b =~= b);
        lemma_blank_gone(b);
    } else {
        let all = a + s + b;
        assert(all =~= s + b);
        assert(all[0] == s[0]);
        lemma_end_trimmed(s, b);
    }
}

proof fn lemma_blank_gone(b: Seq<char>)
    requires
        blank(b),
    ensures
        trimmed(b) == Seq::<char>::empty(),
    decreases b.len(),
{
    if b.len() > 0 {
        assert(blank(b.drop_first()));
        lemma_blank_gone(b.drop_first());
    } else {
        assert(b =~= Seq::<char>::empty());
    }
}

proof fn lemma_end_trimmed(s: Seq<char>, b: Seq<char>)
    requires
        s.len() > 0,
        !is_space(s.last()),
        blank(b),
    ensures
        end_trimmed(s + b) == s,
    decreases b.len(),
{
    let all = s + b;
    if b.len() > 0 {
        assert(all.drop_last() =~= s + b.drop_last());
        assert(all.last() == b[b.len() - 1]);
        assert(blank(b.drop_last())) by {
            assert forall|i: int| 0 <= i < b.drop_last().len() implies is_space(
                #[trigger] b.drop_last()[i],
            ) by {
                assert(is_space(b[i]));
            }
        }
        lemma_end_trimmed(s, b.drop_last());
    } else {
        assert(all =~= s);
    }
}

} // verus!
