use vstd::prelude::*;
use vstd::std_specs::iter::IteratorSpec;

verus! {

/// The character of decimal digit `d`.
pub open spec fn digit_char(d: nat) -> char {
    (d + 48) as char
}

/// The decimal digits of `n`, most significant first, without leading zeros.
pub open spec fn decimal(n: nat) -> Seq<char>
    decreases n,
{
    if n < 10 {
        seq![digit_char(n)]
    } else {
        decimal(n / 10).push(digit_char(n % 10))
    }
}

/// Appends `c` to `s` (`String::push`).
#[verifier::external_body]
pub(crate) fn push_char(s: &mut String, c: char)
    ensures
        final(s)@ == old(s)@.push(c),
{
    s.push(c);
}

fn digit(d: u64) -> (c: char)
    requires
        d < 10,
    ensures
        c == digit_char(d as nat),
{
    ((d as u8) + 48u8) as char
}

/// Appends the decimal digits of `n` to `s`.
pub fn push_decimal(s: &mut String, n: u64)
    ensures
        final(s)@ == old(s)@ + decimal(n as nat),
    decreases n,
{
    if n >= 10 {
        push_decimal(s, n / 10);
    }
    push_char(s, digit(n % 10));
    proof {
        if n < 10 {
            assert(n % 10 == n);
        }
    }
}

} // verus!

verus! {

/// Why text is not a decimal number, as `str::parse` reports it for unsigned integers.
#[derive(Debug, Clone, Copy, PartialEq, Eq, Structural)]
pub enum IntIssue {
    Empty,
    InvalidDigit,
    PosOverflow,
}

pub open spec fn is_digit(c: char) -> bool {
    '0' <= c && c <= '9'
}

pub open spec fn digit_value(c: char) -> nat {
    (c as nat - 48) as nat
}

/// Reads decimal digits left to right, stopping at the first character that is not a digit
/// or the first step whose value exceeds `max`.
pub open spec fn scan_digits(s: Seq<char>, max: nat) -> Result<nat, IntIssue>
    decreases s.len(),
{
    if s.len() == 0 {
        Ok(0)
    } else {
        match scan_digits(s.drop_last(), max) {
            Err(issue) => Err(issue),
            Ok(value) => if !is_digit(s.last()) {
                Err(IntIssue::InvalidDigit)
            } else if value * 10 + digit_value(s.last()) > max {
                Err(IntIssue::PosOverflow)
            } else {
                Ok(value * 10 + digit_value(s.last()))
            },
        }
    }
}

/// An unsigned integer up to `max` as `str::parse` reads it: an optional `+`, then digits.
pub open spec fn parse_uint(s: Seq<char>, max: nat) -> Result<nat, IntIssue> {
    if s.len() == 0 {
        Err(IntIssue::Empty)
    } else if s.len() == 1 && (s[0] == '+' || s[0] == '-') {
        Err(IntIssue::InvalidDigit)
    } else if s[0] == '+' {
        scan_digits(s.drop_first(), max)
    } else {
        scan_digits(s, max)
    }
}

pub proof fn lemma_parse_uint_bounded(s: Seq<char>, max: nat)
    ensures
        parse_uint(s, max) matches Ok(v) ==> v <= max,
{
    if s.len() > 0 && s[0] == '+' {
        lemma_scan_bounded(s.drop_first(), max);
    } else {
        lemma_scan_bounded(s, max);
    }
}

pub proof fn lemma_scan_bounded(s: Seq<char>, max: nat)
    ensures
        scan_digits(s, max) matches Ok(v) ==> v <= max,
    decreases s.len(),
{
    if s.len() > 0 {
        lemma_scan_bounded(s.drop_last(), max);
    }
}

/// How `ParseIntError` describes an issue.
pub open spec fn issue_text(issue: IntIssue) -> Seq<char> {
    match issue {
        IntIssue::Empty => "cannot parse integer from empty string"@,
        IntIssue::InvalidDigit => "invalid digit found in string"@,
        IntIssue::PosOverflow => "number too large to fit in target type"@,
    }
}

/// The pieces of `s` between occurrences of `sep`, as `str::split` gives them.
pub open spec fn split_on(s: Seq<char>, sep: char) -> Seq<Seq<char>>
    decreases s.len(),
{
    if s.len() == 0 {
        seq![Seq::empty()]
    } else {
        let prev = split_on(s.drop_last(), sep);
        if s.last() == sep {
            prev.push(Seq::empty())
        } else {
            prev.update(prev.len() - 1, prev.last().push(s.last()))
        }
    }
}

pub proof fn lemma_split_on_nonempty(s: Seq<char>, sep: char)
    ensures
        split_on(s, sep).len() >= 1,
    decreases s.len(),
{
    if s.len() > 0 {
        lemma_split_on_nonempty(s.drop_last(), sep);
    }
}

/// The characters of `s`.
pub fn chars_of(s: &str) -> (chars: Vec<char>)
    ensures
        chars@ == s@,
{
    let mut chars: Vec<char> = Vec::new();
    let ghost all = vstd::string::spec_iter(s).remaining();
    proof {
        vstd::string::axiom_spec_iter(s);
        assert(all.take(0) =~= Seq::<char>::empty());
        assert(all.take(all.len() as int) =~= all);
    }
    for c in it: s.chars()
        invariant
            it.seq() == all,
            all == s@,
            all.take(all.len() as int) == all,
            chars@ == all.take(it.index() as int),
        ensures
            chars@ == all,
    {
        proof {
            assert(all.take(it.index() + 1) =~= all.take(it.index() as int).push(c));
        }
        chars.push(c);
    }
    chars
}

/// A string holding `chars`.
pub fn string_of(chars: &[char]) -> (s: String)
    ensures
        s@ == chars@,
{
    let mut s = String::new();
    for i in 0..chars.len()
        invariant
            s@ == chars@.take(i as int),
    {
        push_char(&mut s, chars[i]);
        proof {
            assert(chars@.take(i + 1) =~= chars@.take(i as int).push(chars@[i as int]));
        }
    }
    proof {
        assert(chars@.take(chars@.len() as int) =~= chars@);
    }
    s
}

/// Appends `text` to `s`.
pub fn push_str(s: &mut String, text: &str)
    ensures
        final(s)@ == old(s)@ + text@,
{
    let chars = chars_of(text);
    for i in 0..chars.len()
        invariant
            chars@ == text@,
            s@ == old(s)@ + chars@.take(i as int),
    {
        push_char(s, chars[i]);
        proof {
            assert(chars@.take(i + 1) =~= chars@.take(i as int).push(chars@[i as int]));
        }
    }
    proof {
        assert(chars@.take(chars@.len() as int) =~= chars@);
    }
}

/// Whether `chars` begins with `prefix`.
pub fn starts_with(chars: &[char], prefix: &[char]) -> (result: bool)
    ensures
        result == (prefix@.len() <= chars@.len() && chars@.take(prefix@.len() as int) == prefix@),
{
    if prefix.len() > chars.len() {
        return false;
    }
    for i in 0..prefix.len()
        invariant
            prefix@.len() <= chars@.len(),
            forall|j: int| 0 <= j < i ==> chars@[j] == prefix@[j],
    {
        if chars[i] != prefix[i] {
            proof {
                assert(chars@.take(prefix@.len() as int)[i as int] != prefix@[i as int]);
            }
            return false;
        }
    }
    proof {
        assert(chars@.take(prefix@.len() as int) =~= prefix@);
    }
    true
}

/// Whether `chars` is exactly `other`.
pub fn same_chars(chars: &[char], other: &[char]) -> (result: bool)
    ensures
        result == (chars@ == other@),
{
    if chars.len() != other.len() {
        return false;
    }
    let result = starts_with(chars, other);
    proof {
        assert(chars@.take(other@.len() as int) =~= chars@);
    }
    result
}

/// `chars` from position `from` on.
pub fn chars_from(chars: &[char], from: usize) -> (rest: Vec<char>)
    requires
        from <= chars@.len(),
    ensures
        rest@ == chars@.skip(from as int),
{
    let mut rest: Vec<char> = Vec::new();
    let mut i = from;
    while i < chars.len()
        invariant
            from <= i <= chars@.len(),
            rest@ == chars@.subrange(from as int, i as int),
        decreases chars@.len() - i,
    {
        rest.push(chars[i]);
        i = i + 1;
        proof {
            assert(rest@ =~= chars@.subrange(from as int, i as int));
        }
    }
    proof {
        assert(rest@ =~= chars@.skip(from as int));
    }
    rest
}

proof fn lemma_scan_prefix_err(s: Seq<char>, k: int, max: nat)
    requires
        0 <= k <= s.len(),
        scan_digits(s.take(k), max) is Err,
    ensures
        scan_digits(s, max) == scan_digits(s.take(k), max),
    decreases s.len() - k,
{
    if k < s.len() {
        assert(s.take(k + 1).drop_last() =~= s.take(k));
        lemma_scan_prefix_err(s, k + 1, max);
    } else {
        assert(s.take(k) =~= s);
    }
}

/// Reads an unsigned integer up to `max` the way `str::parse` does.
pub fn parse_uint_chars(chars: &[char], max: u64) -> (result: Result<u64, IntIssue>)
    ensures
        match parse_uint(chars@, max as nat) {
            Ok(v) => result == Ok::<u64, IntIssue>(v as u64),
            Err(issue) => result == Err::<u64, IntIssue>(issue),
        },
{
    if chars.len() == 0 {
        return Err(IntIssue::Empty);
    }
    if chars.len() == 1 && (chars[0] == '+' || chars[0] == '-') {
        return Err(IntIssue::InvalidDigit);
    }
    let start: usize = if chars[0] == '+' { 1 } else { 0 };
    let ghost digits = chars@.skip(start as int);
    proof {
        if start == 1 {
            assert(digits =~= chars@.drop_first());
        } else {
            assert(digits =~= chars@);
        }
        assert(digits.take(0) =~= Seq::<char>::empty());
        assert(parse_uint(chars@, max as nat) == scan_digits(digits, max as nat));
    }
    let mut value: u64 = 0;
    let mut i: usize = start;
    while i < chars.len()
        invariant
            start <= i <= chars@.len(),
            digits == chars@.skip(start as int),
            parse_uint(chars@, max as nat) == scan_digits(digits, max as nat),
            scan_digits(digits.take(i - start), max as nat) == Ok::<nat, IntIssue>(value as nat),
            value <= max,
        decreases chars@.len() - i,
    {
        let c = chars[i];
        let ghost prefix = digits.take(i - start + 1);
        proof {
            assert(prefix.drop_last() =~= digits.take(i - start));
            assert(prefix.last() == c);
        }
        if !('0' <= c && c <= '9') {
            proof {
                lemma_scan_prefix_err(digits, i - start + 1, max as nat);
            }
            return Err(IntIssue::InvalidDigit);
        }
        let d = (c as u32 - 48) as u64;
        proof {
            assert(d == digit_value(c));
        }
        if d > max || value > (max - d) / 10 {
            proof {
                if d <= max {
                    assert(value * 10 + d > max) by (nonlinear_arith)
                        requires
                            value > (max - d) / 10,
                            d <= max,
                    ;
                }
                lemma_scan_prefix_err(digits, i - start + 1, max as nat);
            }
            return Err(IntIssue::PosOverflow);
        }
        proof {
            assert(value * 10 + d <= max) by (nonlinear_arith)
                requires
                    value <= (max - d) / 10,
                    d <= max,
            ;
        }
        value = value * 10 + d;
        i = i + 1;
    }
    proof {
        assert(digits.take(digits.len() as int) =~= digits);
    }
    Ok(value)
}

/// The pieces of `chars` between occurrences of `sep`.
pub fn split_chars(chars: &[char], sep: char) -> (pieces: Vec<Vec<char>>)
    ensures
        pieces@.len() == split_on(chars@, sep).len(),
        forall|k: int| 0 <= k < pieces@.len() ==> (#[trigger] pieces@[k])@ == split_on(chars@, sep)[k],
{
    let mut pieces: Vec<Vec<char>> = Vec::new();
    let mut current: Vec<char> = Vec::new();
    proof {
        assert(chars@.take(0) =~= Seq::<char>::empty());
    }
    for i in 0..chars.len()
        invariant
            split_on(chars@.take(i as int), sep).len() == pieces@.len() + 1,
            forall|k: int| 0 <= k < pieces@.len() ==> (#[trigger] pieces@[k])@ == split_on(chars@.take(i as int), sep)[k],
            current@ == split_on(chars@.take(i as int), sep).last(),
    {
        proof {
            assert(chars@.take(i + 1).drop_last() =~= chars@.take(i as int));
            assert(chars@.take(i + 1).last() == chars@[i as int]);
        }
        if chars[i] == sep {
            pieces.push(current);
            current = Vec::new();
        } else {
            current.push(chars[i]);
        }
    }
    proof {
        assert(chars@.take(chars@.len() as int) =~= chars@);
    }
    pieces.push(current);
    pieces
}

/// The decimal forms of `values`, separated by commas.
pub open spec fn joined(values: Seq<nat>) -> Seq<char>
    decreases values.len(),
{
    if values.len() == 0 {
        Seq::empty()
    } else if values.len() == 1 {
        decimal(values[0])
    } else {
        joined(values.drop_last()) + seq![','] + decimal(values.last())
    }
}

pub proof fn lemma_decimal(n: nat, max: nat)
    ensures
        decimal(n).len() >= 1,
        forall|i: int| 0 <= i < decimal(n).len() ==> is_digit(#[trigger] decimal(n)[i]),
        n <= max ==> scan_digits(decimal(n), max) == Ok::<nat, IntIssue>(n),
    decreases n,
{
    if n >= 10 {
        lemma_decimal(n / 10, max);
        let d = n % 10;
        assert(decimal(n).drop_last() =~= decimal(n / 10));
        assert(decimal(n).last() == digit_char(d));
        assert(digit_value(digit_char(d)) == d);
        assert(is_digit(digit_char(d)));
        assert((n / 10) * 10 + d == n);
        assert(n / 10 <= n);
        if n <= max {
            assert(scan_digits(decimal(n / 10), max) == Ok::<nat, IntIssue>(n / 10));
            assert(scan_digits(decimal(n), max) == Ok::<nat, IntIssue>(n));
        }
    } else {
        assert(decimal(n).drop_last() =~= Seq::<char>::empty());
        assert(digit_value(digit_char(n)) == n);
        assert(is_digit(digit_char(n)));
        assert(scan_digits(Seq::<char>::empty(), max) == Ok::<nat, IntIssue>(0));
    }
}

pub proof fn lemma_parse_decimal(n: nat, max: nat)
    requires
        n <= max,
    ensures
        parse_uint(decimal(n), max) == Ok::<nat, IntIssue>(n),
{
    lemma_decimal(n, max);
    assert(is_digit(decimal(n)[0]));
}

/// Text without `sep` is one piece.
pub proof fn lemma_split_no_sep(s: Seq<char>, sep: char)
    requires
        !s.contains(sep),
    ensures
        split_on(s, sep) == seq![s],
    decreases s.len(),
{
    if s.len() > 0 {
        assert(!s.drop_last().contains(sep)) by {
            if s.drop_last().contains(sep) {
                let i = choose|i: int| 0 <= i < s.drop_last().len() && s.drop_last()[i] == sep;
                assert(s[i] == sep);
            }
        }
        lemma_split_no_sep(s.drop_last(), sep);
        assert(s[s.len() - 1] != sep);
        assert(s.drop_last().push(s.last()) =~= s);
    } else {
        assert(s =~= Seq::<char>::empty());
    }
}

/// A separator followed by text without separators adds that text as a last piece.
pub proof fn lemma_split_append(a: Seq<char>, sep: char, b: Seq<char>)
    requires
        !b.contains(sep),
    ensures
        split_on(a + seq![sep] + b, sep) == split_on(a, sep).push(b),
    decreases b.len(),
{
    if b.len() == 0 {
        assert(a + seq![sep] + b =~= a.push(sep));
        assert(a.push(sep).drop_last() =~= a);
        assert(b =~= Seq::<char>::empty());
    } else {
        let b2 = b.drop_last();
        assert(!b2.contains(sep)) by {
            if b2.contains(sep) {
                let i = choose|i: int| 0 <= i < b2.len() && b2[i] == sep;
                assert(b[i] == sep);
            }
        }
        lemma_split_append(a, sep, b2);
        assert((a + seq![sep] + b).drop_last() =~= a + seq![sep] + b2);
        assert(b[b.len() - 1] != sep);
        lemma_split_on_nonempty(a, sep);
        assert(b2.push(b.last()) =~= b);
        assert((a + seq![sep] + b).last() == b.last());
        let prev = split_on(a, sep).push(b2);
        assert(prev.update(prev.len() - 1, prev.last().push(b.last())) =~= split_on(a, sep).push(b));
    }
}

/// Joined values split back into their decimal forms.
pub proof fn lemma_split_joined(values: Seq<nat>)
    requires
        values.len() >= 1,
    ensures
        split_on(joined(values), ',') == values.map_values(|v: nat| decimal(v)),
        !joined(values).contains(':'),
    decreases values.len(),
{
    let last = values.last();
    lemma_decimal(last, 0);
    assert(!decimal(last).contains(',') && !decimal(last).contains(':')) by {
        if decimal(last).contains(',') || decimal(last).contains(':') {
            let i = choose|i: int| 0 <= i < decimal(last).len() && (decimal(last)[i] == ',' || decimal(last)[i] == ':');
            assert(is_digit(decimal(last)[i]));
        }
    }
    if values.len() == 1 {
        lemma_split_no_sep(decimal(values[0]), ',');
        assert(values.map_values(|v: nat| decimal(v)) =~= seq![decimal(values[0])]);
    } else {
        let rest = values.drop_last();
        lemma_split_joined(rest);
        lemma_split_append(joined(rest), ',', decimal(last));
        assert(values.map_values(|v: nat| decimal(v)) =~= rest.map_values(|v: nat| decimal(v)).push(decimal(last)));
        let j = joined(values);
        assert(!j.contains(':')) by {
            if j.contains(':') {
                let i = choose|i: int| 0 <= i < j.len() && j[i] == ':';
                let jr = joined(rest);
                if i < jr.len() {
                    assert(jr[i] == ':');
                } else if i > jr.len() {
                    assert(decimal(last)[i - jr.len() - 1] == ':');
                }
            }
        }
    }
}

} // verus!
