//! Text: NUL characters, comparison, splitting at a slash, decimal numbers.
use vstd::prelude::*;
use vstd::string::*;

verus! {

broadcast use vstd::string::group_string_axioms;

/// Whether a string holds a NUL character, so that it has no C representation.
pub open spec fn has_nul(s: Seq<char>) -> bool {
    s.contains('\0')
}

/// The position of the first `c` in `s` at or after `from`, or the length of `s`.
pub open spec fn find_from(s: Seq<char>, c: char, from: int) -> int
    decreases s.len() - from,
{
    if from >= s.len() {
        s.len() as int
    } else if s[from] == c {
        from
    } else {
        find_from(s, c, from + 1)
    }
}

/// `s` cut at its first slash: what stands before it and, if there is a slash, what follows it.
pub open spec fn split_at_slash(s: Seq<char>) -> (Seq<char>, Option<Seq<char>>) {
    let at = find_from(s, '/', 0);
    if at < s.len() {
        (s.subrange(0, at), Some(s.subrange(at + 1, s.len() as int)))
    } else {
        (s, None)
    }
}

/// Where `find_from` points: the first occurrence, or the end.
proof fn lemma_find_from(s: Seq<char>, c: char, from: int, at: int)
    requires
        0 <= from <= at <= s.len(),
        forall|j: int| from <= j < at ==> s[j] != c,
        at < s.len() ==> s[at] == c,
    ensures
        find_from(s, c, from) == at,
    decreases at - from,
{
    if from < at {
        lemma_find_from(s, c, from + 1, at);
    }
}

/// The position of the first `c` in `s`, counted in characters, or the number of characters.
fn find_char(s: &str, c: char) -> (at: usize)
    ensures
        at == find_from(s@, c, 0),
        at <= s@.len(),
        at < s@.len() ==> s@[at as int] == c,
        forall|j: int| 0 <= j < at ==> s@[j] != c,
{
    let len: usize = s.unicode_len();
    let mut at: usize = 0;
    for x in it: s.chars()
        invariant_except_break
            at == it.index(),
        invariant
            it.seq() == s@,
            len == s@.len(),
            at <= len,
            forall|j: int| 0 <= j < at ==> s@[j] != c,
        ensures
            at < len ==> s@[at as int] == c,
    {
        if x == c {
            break;
        }
        at = at + 1;
    }
    proof {
        lemma_find_from(s@, c, 0, at as int);
    }
    at
}

/// Whether `s` holds a NUL character.
pub fn contains_nul(s: &str) -> (r: bool)
    ensures
        r == has_nul(s@),
{
    let at: usize = find_char(s, '\0');
    at < s.unicode_len()
}

/// Cuts `s` at its first slash.
pub fn split_slash(s: &str) -> (r: (&str, Option<&str>))
    ensures
        r.0@ == split_at_slash(s@).0,
        match r.1 {
            Some(t) => split_at_slash(s@).1 == Some(t@),
            None => split_at_slash(s@).1 is None,
        },
{
    let len: usize = s.unicode_len();
    let at: usize = find_char(s, '/');
    if at < len {
        (s.substring_char(0, at), Some(s.substring_char(at + 1, len)))
    } else {
        (s, None)
    }
}

/// Whether two strings are the same.
pub fn same_text(a: &str, b: &str) -> (r: bool)
    ensures
        r == (a@ == b@),
{
    let x = a.as_bytes();
    let y = b.as_bytes();
    proof {
        vstd::utf8::encode_utf8_decode_utf8(a@);
        vstd::utf8::encode_utf8_decode_utf8(b@);
    }
    if x.len() != y.len() {
        return false;
    }
    for i in 0..x.len()
        invariant
            x@.len() == y@.len(),
            forall|j: int| 0 <= j < i ==> x@[j] == y@[j],
            x@ == a.spec_bytes(),
            y@ == b.spec_bytes(),
    {
        if x[i] != y[i] {
            return false;
        }
    }
    assert(x@ =~= y@);
    true
}

/// The decimal digit for `d`.
pub open spec fn digit(d: int) -> Seq<char> {
    if d == 0 {
        "0"@
    } else if d == 1 {
        "1"@
    } else if d == 2 {
        "2"@
    } else if d == 3 {
        "3"@
    } else if d == 4 {
        "4"@
    } else if d == 5 {
        "5"@
    } else if d == 6 {
        "6"@
    } else if d == 7 {
        "7"@
    } else if d == 8 {
        "8"@
    } else {
        "9"@
    }
}

/// `n` written in decimal, without leading zeros.
pub open spec fn decimal(n: nat) -> Seq<char>
    decreases n,
{
    if n < 10 {
        digit(n as int)
    } else {
        decimal(n / 10) + digit((n % 10) as int)
    }
}

fn digit_text(d: usize) -> (r: &'static str)
    requires
        d < 10,
    ensures
        r@ == digit(d as int),
{
    match d {
        0 => "0",
        1 => "1",
        2 => "2",
        3 => "3",
        4 => "4",
        5 => "5",
        6 => "6",
        7 => "7",
        8 => "8",
        _ => "9",
    }
}

/// Appends `n` in decimal to `out`.
pub fn append_decimal(out: &mut String, n: usize)
    ensures
        final(out)@ == old(out)@ + decimal(n as nat),
    decreases n,
{
    if n >= 10 {
        append_decimal(out, n / 10);
    }
    out.append(digit_text(n % 10));
}

/// A text has a C representation if and only if none of its characters has the code zero.
pub proof fn nul_is_the_character_of_code_zero(s: Seq<char>)
    ensures
        has_nul(s) <==> exists|i: int| 0 <= i < s.len() && #[trigger] s[i] as int == 0,
{
    if has_nul(s) {
        let i = choose|i: int| 0 <= i < s.len() && s[i] == '\0';
        assert(s[i] as int == 0);
    }
    if exists|i: int| 0 <= i < s.len() && #[trigger] s[i] as int == 0 {
        let i = choose|i: int| 0 <= i < s.len() && #[trigger] s[i] as int == 0;
        assert(s[i] == '\0');
    }
}

/// What `find_from` points at, and what it has passed over.
proof fn lemma_found(s: Seq<char>, c: char, from: int)
    requires
        0 <= from <= s.len(),
    ensures
        from <= find_from(s, c, from) <= s.len(),
        forall|j: int| from <= j < find_from(s, c, from) ==> s[j] != c,
        find_from(s, c, from) < s.len() ==> s[find_from(s, c, from)] == c,
    decreases s.len() - from,
{
    if from < s.len() && s[from] != c {
        lemma_found(s, c, from + 1);
    }
}

/// Cutting a text at its first slash loses nothing but the slash: the first part holds no slash,
/// and with the slash and the second part after it, it is the text again. Where there is no second
/// part, the first is the whole text.
pub proof fn cutting_loses_only_the_slash(s: Seq<char>)
    ensures
        ({
            let (first, second) = split_at_slash(s);
            &&& !first.contains('/')
            &&& match second {
                Some(rest) => first + seq!['/'] + rest == s,
                None => first == s,
            }
        }),
{
    lemma_found(s, '/', 0);
    let at = find_from(s, '/', 0);
    let (first, second) = split_at_slash(s);
    if at < s.len() {
        assert(first + seq!['/'] + second->0 =~= s);
    }
    if first.contains('/') {
        let j = choose|j: int| 0 <= j < first.len() && first[j] == '/';
        assert(s[j] == '/');
    }
}

/// A text is cut at the first slash and at no later one.
pub proof fn a_text_is_cut_at_its_first_slash(first: Seq<char>, rest: Seq<char>)
    requires
        !first.contains('/'),
    ensures
        split_at_slash(first + seq!['/'] + rest) == (first, Some(rest)),
        split_at_slash(first) == (first, None::<Seq<char>>),
{
    let s = first + seq!['/'] + rest;
    assert forall|j: int| 0 <= j < first.len() implies first[j] != '/' by {}
    assert forall|j: int| 0 <= j < first.len() implies s[j] != '/' by {
        assert(s[j] == first[j]);
    }
    assert(s[first.len() as int] == '/');
    lemma_find_from(s, '/', 0, first.len() as int);
    lemma_find_from(first, '/', 0, first.len() as int);
    assert(s.subrange(0, first.len() as int) =~= first);
    assert(s.subrange(first.len() as int + 1, s.len() as int) =~= rest);
}

/// The number that decimal digits stand for.
pub open spec fn number(s: Seq<char>) -> int
    decreases s.len(),
{
    if s.len() == 0 {
        0
    } else {
        10 * number(s.drop_last()) + (s.last() as int - 48)
    }
}

/// A digit is one character, whose code is that of zero and as many more as the digit says.
proof fn lemma_digit(d: int)
    requires
        0 <= d < 10,
    ensures
        digit(d).len() == 1,
        digit(d)[0] as int == 48 + d,
{
    reveal_strlit("0");
    reveal_strlit("1");
    reveal_strlit("2");
    reveal_strlit("3");
    reveal_strlit("4");
    reveal_strlit("5");
    reveal_strlit("6");
    reveal_strlit("7");
    reveal_strlit("8");
    reveal_strlit("9");
}

/// A number written in decimal is made of digits that stand for it, and has no needless zero in
/// front.
pub proof fn decimal_digits_stand_for_the_number(n: nat)
    ensures
        number(decimal(n)) == n,
        decimal(n).len() >= 1,
        forall|i: int| 0 <= i < decimal(n).len() ==> 48 <= #[trigger] decimal(n)[i] as int <= 57,
        decimal(n).len() > 1 ==> decimal(n)[0] as int != 48,
    decreases n,
{
    if n < 10 {
        lemma_digit(n as int);
        assert(decimal(n).drop_last() =~= Seq::empty());
        assert(number(decimal(n).drop_last()) == 0);
    } else {
        let d = (n % 10) as int;
        let before = decimal(n / 10);
        decimal_digits_stand_for_the_number(n / 10);
        lemma_digit(d);
        assert(decimal(n).drop_last() =~= before);
        assert(decimal(n).last() == digit(d)[0]);
        assert forall|i: int| 0 <= i < decimal(n).len() implies 48 <= #[trigger] decimal(
            n,
        )[i] as int <= 57 by {
            if i < before.len() {
                assert(decimal(n)[i] == before[i]);
            }
        }
        assert(decimal(n)[0] == before[0]);
        if before.len() == 1 {
            assert(before.drop_last() =~= Seq::empty());
            assert(number(before.drop_last()) == 0);
        }
    }
}

} // verus!
