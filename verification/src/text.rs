//! Text helpers with contracts over sequences of characters.
use vstd::prelude::*;

verus! {

broadcast use vstd::string::group_string_axioms;

/// `String::push` appends one character.
pub assume_specification[ String::push ](s: &mut String, c: char)
    ensures
        final(s)@ == old(s)@.push(c),
;

/// One ASCII character in lower case; every other character as it is.
pub open spec fn lower_char(c: char) -> char {
    if 'A' <= c <= 'Z' {
        ((c as u32) + 32) as char
    } else {
        c
    }
}

/// A text with its ASCII letters in lower case.
pub open spec fn lower_seq(s: Seq<char>) -> Seq<char> {
    s.map_values(|c: char| lower_char(c))
}

/// The Unicode `White_Space` property.
pub open spec fn space_char(c: char) -> bool {
    ||| '\u{9}' <= c <= '\u{d}'
    ||| c == ' '
    ||| c == '\u{85}'
    ||| c == '\u{a0}'
    ||| c == '\u{1680}'
    ||| '\u{2000}' <= c <= '\u{200a}'
    ||| c == '\u{2028}'
    ||| c == '\u{2029}'
    ||| c == '\u{202f}'
    ||| c == '\u{205f}'
    ||| c == '\u{3000}'
}

/// The pieces of `s` between the occurrences of `sep`; always at least one.
pub open spec fn pieces(s: Seq<char>, sep: char) -> Seq<Seq<char>>
    decreases s.len(),
{
    if s.len() == 0 {
        seq![Seq::empty()]
    } else {
        let init = pieces(s.drop_last(), sep);
        if s.last() == sep {
            init.push(Seq::empty())
        } else {
            init.update(init.len() - 1, init.last().push(s.last()))
        }
    }
}

/// The maximal runs of characters that are not white space.
pub open spec fn words_seq(s: Seq<char>) -> Seq<Seq<char>>
    decreases s.len(),
{
    if s.len() == 0 {
        Seq::empty()
    } else {
        let init = words_seq(s.drop_last());
        if space_char(s.last()) {
            init
        } else if s.len() >= 2 && !space_char(s[s.len() - 2]) {
            init.update(init.len() - 1, init.last().push(s.last()))
        } else {
            init.push(seq![s.last()])
        }
    }
}

/// `s` without its leading white space.
pub open spec fn trim_start_seq(s: Seq<char>) -> Seq<char>
    decreases s.len(),
{
    if s.len() > 0 && space_char(s[0]) {
        trim_start_seq(s.skip(1))
    } else {
        s
    }
}

/// `s` without its trailing white space.
pub open spec fn trim_end_seq(s: Seq<char>) -> Seq<char>
    decreases s.len(),
{
    if s.len() > 0 && space_char(s.last()) {
        trim_end_seq(s.drop_last())
    } else {
        s
    }
}

/// The texts of `parts` with `sep` between neighbours.
pub open spec fn join_seq(parts: Seq<Seq<char>>, sep: Seq<char>) -> Seq<char>
    decreases parts.len(),
{
    if parts.len() == 0 {
        Seq::empty()
    } else if parts.len() == 1 {
        parts[0]
    } else {
        join_seq(parts.drop_last(), sep) + sep + parts.last()
    }
}

/// The decimal digits of `n`, without leading zeros.
pub open spec fn decimal_seq(n: nat) -> Seq<char>
    decreases n,
{
    if n < 10 {
        seq![digit_char(n)]
    } else {
        decimal_seq(n / 10).push(digit_char(n % 10))
    }
}

/// The character of one decimal digit.
pub open spec fn digit_char(n: nat) -> char {
    (48 + n) as char
}

/// What the decimal digits of `s` say, or `None` where `s` is empty or holds anything else.
pub open spec fn number_seq(s: Seq<char>) -> Option<nat>
    decreases s.len(),
{
    if s.len() == 0 {
        None
    } else if !('0' <= s.last() <= '9') {
        None
    } else if s.len() == 1 {
        Some((s.last() as nat - 48) as nat)
    } else {
        match number_seq(s.drop_last()) {
            Some(n) => Some((n * 10 + (s.last() as nat - 48)) as nat),
            None => None,
        }
    }
}

/// The number of bytes of one character in UTF-8.
pub open spec fn char_bytes(c: char) -> nat {
    if (c as nat) < 0x80 {
        1
    } else if (c as nat) < 0x800 {
        2
    } else if (c as nat) < 0x1_0000 {
        3
    } else {
        4
    }
}

/// The number of bytes of a text in UTF-8.
pub open spec fn text_bytes(s: Seq<char>) -> nat
    decreases s.len(),
{
    if s.len() == 0 {
        0
    } else {
        text_bytes(s.drop_last()) + char_bytes(s.last())
    }
}

/// The texts that a list of strings holds.
pub open spec fn texts(v: Seq<String>) -> Seq<Seq<char>> {
    v.map_values(|s: String| s@)
}

/// The text of an optional string.
pub open spec fn opt_text(o: Option<String>) -> Option<Seq<char>> {
    match o {
        Some(s) => Some(s@),
        None => None,
    }
}

/// The characters of a text.
pub fn chars_of(s: &str) -> (r: Vec<char>)
    ensures
        r@ == s@,
{
    let mut v: Vec<char> = Vec::new();
    for c in it: s.chars()
        invariant
            it.seq() == s@,
            v@ == s@.take(it.index() as int),
    {
        v.push(c);
        assert(s@.take(it.index() + 1) =~= s@.take(it.index() as int).push(c));
    }
    assert(s@.take(s@.len() as int) =~= s@);
    v
}

/// The text that the characters `from..to` make up.
pub fn slice_text(v: &Vec<char>, from: usize, to: usize) -> (r: String)
    requires
        from <= to <= v@.len(),
    ensures
        r@ == v@.subrange(from as int, to as int),
{
    let mut s = String::new();
    let mut i: usize = from;
    while i < to
        invariant
            from <= i <= to <= v@.len(),
            s@ == v@.subrange(from as int, i as int),
        decreases to - i,
    {
        s.push(v[i]);
        i = i + 1;
        assert(v@.subrange(from as int, i as int) =~= v@.subrange(from as int, i - 1).push(v@[i - 1]));
    }
    s
}

/// Whether two texts are the same.
pub fn same(a: &str, b: &str) -> (r: bool)
    ensures
        r == (a@ == b@),
{
    let x = chars_of(a);
    let y = chars_of(b);
    same_chars(&x, &y)
}

/// Whether two character lists are the same.
pub fn same_chars(x: &Vec<char>, y: &Vec<char>) -> (r: bool)
    ensures
        r == (x@ == y@),
{
    if x.len() != y.len() {
        return false;
    }
    let mut i: usize = 0;
    while i < x.len()
        invariant
            i <= x@.len(),
            x@.len() == y@.len(),
            forall|j: int| 0 <= j < i ==> x@[j] == y@[j],
        decreases x@.len() - i,
    {
        if x[i] != y[i] {
            return false;
        }
        i = i + 1;
    }
    assert(x@ =~= y@);
    true
}

/// One character with ASCII upper case turned to lower case.
pub fn lower_ascii(c: char) -> (r: char)
    ensures
        r == lower_char(c),
{
    if 'A' <= c && c <= 'Z' {
        let n: u8 = c as u8;
        (n + 32) as char
    } else {
        c
    }
}

/// `str::to_ascii_lowercase`.
pub fn lower(s: &str) -> (r: String)
    ensures
        r@ == lower_seq(s@),
{
    let v = chars_of(s);
    let mut r = String::new();
    let mut i: usize = 0;
    while i < v.len()
        invariant
            v@ == s@,
            i <= v@.len(),
            r@ == lower_seq(s@.take(i as int)),
        decreases v@.len() - i,
    {
        r.push(lower_ascii(v[i]));
        i = i + 1;
        assert(lower_seq(s@.take(i as int)) =~= lower_seq(s@.take(i - 1)).push(lower_char(s@[i - 1])));
    }
    assert(s@.take(s@.len() as int) =~= s@);
    r
}

/// Whether two texts differ at most in the case of ASCII letters.
pub fn same_ignoring_case(a: &str, b: &str) -> (r: bool)
    ensures
        r == (lower_seq(a@) == lower_seq(b@)),
{
    let x = lower(a);
    let y = lower(b);
    x == y
}

/// Whether `s` begins with `p`.
pub fn starts_with(s: &str, p: &str) -> (r: bool)
    ensures
        r == p@.is_prefix_of(s@),
{
    let x = chars_of(s);
    let y = chars_of(p);
    if y.len() > x.len() {
        return false;
    }
    let mut i: usize = 0;
    while i < y.len()
        invariant
            x@ == s@,
            y@ == p@,
            i <= y@.len() <= x@.len(),
            forall|j: int| 0 <= j < i ==> x@[j] == y@[j],
        decreases y@.len() - i,
    {
        if x[i] != y[i] {
            assert(x@.subrange(0, y@.len() as int)[i as int] == x@[i as int]);
            return false;
        }
        i = i + 1;
    }
    assert(x@.subrange(0, y@.len() as int) =~= y@);
    true
}

/// `s` after the prefix `p`, where it has that prefix.
pub fn strip_prefix(s: &str, p: &str) -> (r: Option<String>)
    ensures
        r matches Some(rest) ==> p@.is_prefix_of(s@) && rest@ == s@.skip(p@.len() as int),
        r is None ==> !p@.is_prefix_of(s@),
{
    if starts_with(s, p) {
        let x = chars_of(s);
        let y = chars_of(p);
        let rest = slice_text(&x, y.len(), x.len());
        assert(rest@ =~= s@.skip(p@.len() as int));
        Some(rest)
    } else {
        None
    }
}

/// The first position of `c`.
pub fn position(v: &Vec<char>, c: char) -> (r: Option<usize>)
    ensures
        match r {
            Some(i) => i < v@.len() && v@[i as int] == c && v@.index_of_first(c) == Some(i as int)
                && forall|j: int| 0 <= j < i ==> v@[j] != c,
            None => v@.index_of_first(c) is None && !v@.contains(c),
        },
{
    let mut i: usize = 0;
    while i < v.len()
        invariant
            i <= v@.len(),
            forall|j: int| 0 <= j < i ==> v@[j] != c,
        decreases v@.len() - i,
    {
        if v[i] == c {
            proof {
                v@.index_of_first_ensures(c);
            }
            assert(v@.contains(c));
            return Some(i);
        }
        i = i + 1;
    }
    proof {
        v@.index_of_first_ensures(c);
    }
    None
}

/// The last position of `c`.
pub fn last_position(v: &Vec<char>, c: char) -> (r: Option<usize>)
    ensures
        match r {
            Some(i) => i < v@.len() && v@[i as int] == c && v@.index_of_last(c) == Some(i as int)
                && forall|j: int| i < j < v@.len() ==> v@[j] != c,
            None => v@.index_of_last(c) is None && !v@.contains(c),
        },
{
    let mut i: usize = v.len();
    while i > 0
        invariant
            i <= v@.len(),
            forall|j: int| i <= j < v@.len() ==> v@[j] != c,
        decreases i,
    {
        i = i - 1;
        if v[i] == c {
            proof {
                v@.index_of_last_ensures(c);
            }
            assert(v@.contains(c));
            return Some(i);
        }
    }
    proof {
        v@.index_of_last_ensures(c);
    }
    None
}

/// Whether `s` holds the character `c`.
pub fn has_char(s: &str, c: char) -> (r: bool)
    ensures
        r == s@.contains(c),
{
    let v = chars_of(s);
    match position(&v, c) {
        Some(i) => {
            assert(s@[i as int] == c);
            true
        },
        None => false,
    }
}

/// The texts before and after the first `c`.
pub open spec fn cut_first(s: Seq<char>, c: char) -> Option<(Seq<char>, Seq<char>)> {
    match s.index_of_first(c) {
        Some(i) => Some((s.take(i), s.skip(i + 1))),
        None => None,
    }
}

/// The texts before and after the last `c`.
pub open spec fn cut_last(s: Seq<char>, c: char) -> Option<(Seq<char>, Seq<char>)> {
    match s.index_of_last(c) {
        Some(i) => Some((s.take(i), s.skip(i + 1))),
        None => None,
    }
}

/// The pair of texts of an optional pair of strings.
pub open spec fn opt_pair(o: Option<(String, String)>) -> Option<(Seq<char>, Seq<char>)> {
    match o {
        Some(p) => Some((p.0@, p.1@)),
        None => None,
    }
}

/// `str::split_once` at a character.
pub fn split_once(s: &str, c: char) -> (r: Option<(String, String)>)
    ensures
        opt_pair(r) == cut_first(s@, c),
{
    let v = chars_of(s);
    match position(&v, c) {
        Some(i) => {
            let n: usize = v.len();
            let a = slice_text(&v, 0, i);
            let b = slice_text(&v, i + 1, n);
            assert(a@ =~= s@.take(i as int));
            assert(b@ =~= s@.skip(i + 1));
            Some((a, b))
        },
        None => None,
    }
}

/// `str::rsplit_once` at a character.
pub fn rsplit_once(s: &str, c: char) -> (r: Option<(String, String)>)
    ensures
        opt_pair(r) == cut_last(s@, c),
{
    let v = chars_of(s);
    match last_position(&v, c) {
        Some(i) => {
            let n: usize = v.len();
            let a = slice_text(&v, 0, i);
            let b = slice_text(&v, i + 1, n);
            assert(a@ =~= s@.take(i as int));
            assert(b@ =~= s@.skip(i + 1));
            Some((a, b))
        },
        None => None,
    }
}

/// `a` followed by `b`.
pub fn concat(a: &str, b: &str) -> (r: String)
    ensures
        r@ == a@ + b@,
{
    let mut r = a.to_string();
    r.append(b);
    r
}

/// `a` followed by `b` and `c`.
pub fn concat3(a: &str, b: &str, c: &str) -> (r: String)
    ensures
        r@ == a@ + b@ + c@,
{
    let mut r = a.to_string();
    r.append(b);
    r.append(c);
    r
}

/// `str::split` at a character.
pub fn split(s: &str, sep: char) -> (r: Vec<String>)
    ensures
        texts(r@) == pieces(s@, sep),
        r@.len() >= 1,
{
    let v = chars_of(s);
    let mut r: Vec<String> = Vec::new();
    let mut start: usize = 0;
    let mut i: usize = 0;
    assert(v@.take(0) =~= Seq::<char>::empty());
    while i < v.len()
        invariant
            v@ == s@,
            start <= i <= v@.len(),
            texts(r@).push(v@.subrange(start as int, i as int)) =~= pieces(v@.take(i as int), sep),
        decreases v@.len() - i,
    {
        let ghost before = texts(r@);
        proof {
            assert(v@.take(i + 1).drop_last() =~= v@.take(i as int));
            assert(v@.take(i + 1).last() == v@[i as int]);
        }
        if v[i] == sep {
            r.push(slice_text(&v, start, i));
            assert(texts(r@) =~= before.push(v@.subrange(start as int, i as int)));
            start = i + 1;
            assert(v@.subrange(start as int, i + 1) =~= Seq::<char>::empty());
        } else {
            assert(v@.subrange(start as int, i + 1) =~= v@.subrange(start as int, i as int).push(v@[i as int]));
        }
        i = i + 1;
    }
    assert(v@.take(v@.len() as int) =~= v@);
    r.push(slice_text(&v, start, v.len()));
    assert(texts(r@) =~= pieces(s@, sep));
    r
}

/// `str::split_whitespace`.
pub fn words(s: &str) -> (r: Vec<String>)
    ensures
        texts(r@) == words_seq(s@),
{
    let v = chars_of(s);
    let mut r: Vec<String> = Vec::new();
    let mut start: usize = 0;
    let mut i: usize = 0;
    while i < v.len()
        invariant
            v@ == s@,
            start <= i <= v@.len(),
            i == 0 ==> start == 0,
            start < i ==> !space_char(v@[i - 1]),
            start == i && i > 0 ==> space_char(v@[i - 1]),
            (if start < i {
                texts(r@).push(v@.subrange(start as int, i as int))
            } else {
                texts(r@)
            }) =~= words_seq(v@.take(i as int)),
        decreases v@.len() - i,
    {
        let ghost before = texts(r@);
        let ghost all = v@.take(i + 1);
        proof {
            assert(all.drop_last() =~= v@.take(i as int));
            assert(all.last() == v@[i as int]);
            assert(i > 0 ==> all[all.len() - 2] == v@[i - 1]);
        }
        if is_space(v[i]) {
            if start < i {
                r.push(slice_text(&v, start, i));
                assert(texts(r@) =~= before.push(v@.subrange(start as int, i as int)));
            }
            start = i + 1;
        } else {
            assert(v@.subrange(start as int, i + 1) =~= v@.subrange(start as int, i as int).push(v@[i as int]));
            assert(v@.subrange(i as int, i + 1) =~= seq![v@[i as int]]);
        }
        i = i + 1;
    }
    assert(v@.take(v@.len() as int) =~= v@);
    let ghost before = texts(r@);
    if start < v.len() {
        r.push(slice_text(&v, start, v.len()));
        assert(texts(r@) =~= before.push(v@.subrange(start as int, v@.len() as int)));
    }
    r
}

/// `char::is_whitespace`.
pub fn is_space(c: char) -> (r: bool)
    ensures
        r == space_char(c),
{
    ('\u{9}' <= c && c <= '\u{d}') || c == ' ' || c == '\u{85}' || c == '\u{a0}' || c == '\u{1680}' || ('\u{2000}'
        <= c && c <= '\u{200a}') || c == '\u{2028}' || c == '\u{2029}' || c == '\u{202f}' || c == '\u{205f}' || c
        == '\u{3000}'
}

/// `s` without leading and trailing white space.
pub open spec fn trim_seq(s: Seq<char>) -> Seq<char> {
    trim_end_seq(trim_start_seq(s))
}

/// `str::trim_start`.
pub fn trim_start(s: &str) -> (r: String)
    ensures
        r@ == trim_start_seq(s@),
{
    let v = chars_of(s);
    let mut i: usize = 0;
    assert(v@.skip(0) =~= v@);
    while i < v.len() && is_space(v[i])
        invariant
            v@ == s@,
            i <= v@.len(),
            trim_start_seq(v@.skip(i as int)) == trim_start_seq(v@),
        decreases v@.len() - i,
    {
        assert(v@.skip(i as int).skip(1) =~= v@.skip(i + 1));
        i = i + 1;
    }
    let r = slice_text(&v, i, v.len());
    assert(r@ =~= v@.skip(i as int));
    r
}

/// `str::trim_end`.
pub fn trim_end(s: &str) -> (r: String)
    ensures
        r@ == trim_end_seq(s@),
{
    let v = chars_of(s);
    let mut n: usize = v.len();
    assert(v@.take(n as int) =~= v@);
    while n > 0 && is_space(v[n - 1])
        invariant
            v@ == s@,
            n <= v@.len(),
            trim_end_seq(v@.take(n as int)) == trim_end_seq(v@),
        decreases n,
    {
        assert(v@.take(n as int).drop_last() =~= v@.take(n - 1));
        n = n - 1;
    }
    let r = slice_text(&v, 0, n);
    assert(r@ =~= v@.take(n as int));
    r
}

/// `str::trim`.
pub fn trim(s: &str) -> (r: String)
    ensures
        r@ == trim_seq(s@),
{
    let t = trim_start(s);
    trim_end(t.as_str())
}

/// The texts of `parts` from `from` on, joined by `sep`.
pub fn join_from(parts: &Vec<String>, from: usize, sep: &str) -> (r: String)
    requires
        from <= parts@.len(),
    ensures
        r@ == join_seq(texts(parts@.skip(from as int)), sep@),
{
    let mut r = String::new();
    let mut i: usize = from;
    while i < parts.len()
        invariant
            from <= i <= parts@.len(),
            r@ == join_seq(texts(parts@.subrange(from as int, i as int)), sep@),
        decreases parts@.len() - i,
    {
        if i > from {
            r.append(sep);
        }
        r.append(parts[i].as_str());
        proof {
            let now = texts(parts@.subrange(from as int, i + 1));
            assert(now.drop_last() =~= texts(parts@.subrange(from as int, i as int)));
            assert(now.last() == parts@[i as int]@);
            assert(Seq::<char>::empty() + parts@[i as int]@ =~= parts@[i as int]@);
        }
        i = i + 1;
    }
    assert(parts@.subrange(from as int, parts@.len() as int) =~= parts@.skip(from as int));
    r
}

/// `[String]::join`.
pub fn join(parts: &Vec<String>, sep: &str) -> (r: String)
    ensures
        r@ == join_seq(texts(parts@), sep@),
{
    assert(parts@.skip(0) =~= parts@);
    join_from(parts, 0, sep)
}

/// The decimal digits of `n`.
pub fn decimal(n: u64) -> (r: String)
    ensures
        r@ == decimal_seq(n as nat),
    decreases n,
{
    let digit: u8 = (n % 10) as u8;
    if n < 10 {
        let mut r = String::new();
        r.push((48 + digit) as char);
        assert(r@ =~= seq![digit_char(n as nat)]);
        r
    } else {
        let mut r = decimal(n / 10);
        r.push((48 + digit) as char);
        r
    }
}

/// `str::parse` of an unsigned number with the given largest value: an optional plus sign, then digits.
pub open spec fn parsed_seq(s: Seq<char>, max: nat) -> Option<nat> {
    let digits = if s.len() > 0 && s[0] == '+' {
        s.skip(1)
    } else {
        s
    };
    match number_seq(digits) {
        Some(n) if n <= max => Some(n),
        _ => None,
    }
}

/// `str::parse` of an unsigned number no larger than `max`.
pub fn parse_up_to(s: &str, max: u64) -> (r: Option<u64>)
    ensures
        match r {
            Some(n) => parsed_seq(s@, max as nat) == Some(n as nat),
            None => parsed_seq(s@, max as nat) is None,
        },
{
    let v = chars_of(s);
    let from: usize = if v.len() > 0 && v[0] == '+' {
        1
    } else {
        0
    };
    let ghost digits = v@.skip(from as int);
    assert(from == 0 ==> digits =~= s@);
    if from == v.len() {
        return None;
    }
    let mut n: u64 = 0;
    let mut i: usize = from;
    while i < v.len()
        invariant
            v@ == s@,
            from <= i <= v@.len(),
            digits == v@.skip(from as int),
            n <= max,
            i == from ==> n == 0,
            i > from ==> number_seq(digits.take(i - from)) == Some(n as nat),
            digits.len() > 0,
            parsed_seq(s@, max as nat) == (match number_seq(digits) {
                Some(k) if k <= max as nat => Some(k),
                _ => None,
            }),
        decreases v@.len() - i,
    {
        let c = v[i];
        let ghost part = digits.take(i - from + 1);
        proof {
            assert(part.drop_last() =~= digits.take(i - from));
            assert(part.last() == c);
        }
        if !('0' <= c && c <= '9') {
            proof {
                lemma_number_prefix(digits, i - from + 1);
            }
            return None;
        }
        let d: u64 = (c as u64) - 48;
        let wide: u128 = (n as u128) * 10 + (d as u128);
        if wide > max as u128 {
            proof {
                lemma_number_grows(digits, i - from + 1);
            }
            return None;
        }
        n = n * 10 + d;
        i = i + 1;
    }
    assert(digits.take(digits.len() as int) =~= digits);
    Some(n)
}

/// A text is a number only where each of its beginnings is one.
proof fn lemma_number_prefix(s: Seq<char>, k: int)
    requires
        0 < k <= s.len(),
        number_seq(s.take(k)) is None,
    ensures
        number_seq(s) is None,
    decreases s.len() - k,
{
    if k == s.len() {
        assert(s.take(k) =~= s);
    } else {
        assert(s.take(k + 1).drop_last() =~= s.take(k));
        lemma_number_prefix(s, k + 1);
    }
}

/// A number is at least each of its beginnings.
proof fn lemma_number_grows(s: Seq<char>, k: int)
    requires
        0 < k <= s.len(),
        number_seq(s.take(k)) is Some,
    ensures
        number_seq(s) matches Some(n) ==> n >= number_seq(s.take(k))->0,
    decreases s.len() - k,
{
    if k == s.len() {
        assert(s.take(k) =~= s);
    } else {
        assert(s.take(k + 1).drop_last() =~= s.take(k));
        if number_seq(s.take(k + 1)) is Some {
            lemma_number_grows(s, k + 1);
        } else {
            lemma_number_prefix(s, k + 1);
        }
    }
}

/// The number of bytes of `c` in UTF-8.
pub fn char_len(c: char) -> (r: usize)
    ensures
        r == char_bytes(c),
        1 <= r <= 4,
{
    let n: u32 = c as u32;
    if n < 0x80 {
        1
    } else if n < 0x800 {
        2
    } else if n < 0x1_0000 {
        3
    } else {
        4
    }
}

/// Whether `part` occurs in `s`.
pub open spec fn occurs(s: Seq<char>, part: Seq<char>) -> bool {
    exists|i: int| 0 <= i <= s.len() - part.len() && #[trigger] s.subrange(i, i + part.len()) == part
}

/// `str::contains` of a text.
pub fn contains(s: &str, part: &str) -> (r: bool)
    ensures
        r == occurs(s@, part@),
{
    let v = chars_of(s);
    let p = chars_of(part);
    if p.len() > v.len() {
        return false;
    }
    let last: usize = v.len() - p.len();
    let mut i: usize = 0;
    while i < last
        invariant
            v@ == s@,
            p@ == part@,
            last == v@.len() - p@.len(),
            i <= last,
            forall|k: int| 0 <= k < i ==> #[trigger] s@.subrange(k, k + part@.len()) != part@,
        decreases last - i,
    {
        if matches_at(&v, &p, i) {
            return true;
        }
        i = i + 1;
    }
    matches_at(&v, &p, last)
}

/// Whether `p` stands in `v` at `i`.
fn matches_at(v: &Vec<char>, p: &Vec<char>, i: usize) -> (r: bool)
    requires
        i + p@.len() <= v@.len(),
    ensures
        r == (v@.subrange(i as int, i + p@.len()) == p@),
{
    let n: usize = v.len();
    let mut j: usize = 0;
    while j < p.len()
        invariant
            j <= p@.len(),
            n == v@.len(),
            i + p@.len() <= v@.len(),
            forall|k: int| 0 <= k < j ==> v@[i + k] == p@[k],
        decreases p@.len() - j,
    {
        if v[i + j] != p[j] {
            assert(v@.subrange(i as int, i + p@.len())[j as int] != p@[j as int]);
            return false;
        }
        j = j + 1;
    }
    assert(v@.subrange(i as int, i + p@.len()) =~= p@);
    true
}

/// `a` comes before `b` in the order of code points.
pub open spec fn before_seq(a: Seq<char>, b: Seq<char>) -> bool
    decreases a.len(),
{
    if b.len() == 0 {
        false
    } else if a.len() == 0 {
        true
    } else if a[0] != b[0] {
        a[0] < b[0]
    } else {
        before_seq(a.skip(1), b.skip(1))
    }
}

/// The order of texts is a strict total order.
pub proof fn lemma_before_total(a: Seq<char>, b: Seq<char>)
    ensures
        !before_seq(a, a),
        a == b || before_seq(a, b) || before_seq(b, a),
        !(before_seq(a, b) && before_seq(b, a)),
    decreases a.len(),
{
    if a.len() > 0 && b.len() > 0 {
        lemma_before_total(a.skip(1), b.skip(1));
        if a[0] == b[0] && a.skip(1) == b.skip(1) {
            assert(a =~= seq![a[0]] + a.skip(1));
            assert(b =~= seq![b[0]] + b.skip(1));
        }
    } else if a.len() == 0 && b.len() == 0 {
        assert(a =~= b);
    } else if a.len() > 0 {
        lemma_before_total(a.skip(1), a.skip(1));
    }
}

/// The order of texts is transitive.
pub proof fn lemma_before_transitive(a: Seq<char>, b: Seq<char>, c: Seq<char>)
    requires
        before_seq(a, b),
        before_seq(b, c),
    ensures
        before_seq(a, c),
    decreases a.len(),
{
    if a.len() > 0 && a[0] == b[0] && b[0] == c[0] {
        lemma_before_transitive(a.skip(1), b.skip(1), c.skip(1));
    }
}

/// Whether `a` comes before `b` in the order of code points.
pub fn comes_before(a: &str, b: &str) -> (r: bool)
    ensures
        r == before_seq(a@, b@),
{
    let x = chars_of(a);
    let y = chars_of(b);
    let mut i: usize = 0;
    assert(x@.skip(0) =~= x@);
    assert(y@.skip(0) =~= y@);
    while i < x.len() && i < y.len() && x[i] == y[i]
        invariant
            x@ == a@,
            y@ == b@,
            i <= x@.len(),
            i <= y@.len(),
            before_seq(a@, b@) == before_seq(x@.skip(i as int), y@.skip(i as int)),
        decreases x@.len() - i,
    {
        assert(x@.skip(i as int).skip(1) =~= x@.skip(i + 1));
        assert(y@.skip(i as int).skip(1) =~= y@.skip(i + 1));
        i = i + 1;
    }
    if i == y.len() {
        false
    } else if i == x.len() {
        true
    } else {
        x[i] < y[i]
    }
}

/// The texts stand in order, and none stands twice.
pub open spec fn ascending(v: Seq<Seq<char>>) -> bool {
    forall|i: int, j: int| 0 <= i < j < v.len() ==> before_seq(#[trigger] v[i], #[trigger] v[j])
}

/// Puts a text at its place among ordered ones, unless it is there.
pub fn insert_ordered(list: &mut Vec<String>, text: &str)
    requires
        ascending(texts(old(list)@)),
    ensures
        ascending(texts(final(list)@)),
        forall|t: Seq<char>| #[trigger]
            texts(final(list)@).contains(t) <==> texts(old(list)@).contains(t) || t == text@,
{
    let ghost was = texts(list@);
    let n: usize = list.len();
    let mut i: usize = 0;
    while i < n && comes_before(list[i].as_str(), text)
        invariant
            n == list@.len(),
            i <= n,
            was == texts(list@),
            forall|j: int| 0 <= j < i ==> before_seq(#[trigger] was[j], text@),
        decreases n - i,
    {
        assert(was[i as int] == list@[i as int]@);
        i = i + 1;
    }
    if i < n && same(list[i].as_str(), text) {
        assert(was[i as int] == text@);
        assert(was.contains(text@));
        return;
    }
    list.insert(i, text.to_string());
    let ghost now = texts(list@);
    proof {
        assert(now =~= was.insert(i as int, text@));
        if i < n {
            lemma_before_total(text@, was[i as int]);
        }
        assert forall|a: int, b: int| 0 <= a < b < now.len() implies before_seq(
            #[trigger] now[a],
            #[trigger] now[b],
        ) by {
            let x = if a < i { a } else { a - 1 };
            let y = if b < i { b } else { b - 1 };
            if a != i && b != i {
                assert(now[a] == was[x] && now[b] == was[y]);
            } else if b == i {
                assert(now[a] == was[a]);
            } else {
                assert(now[b] == was[b - 1]);
                if b - 1 > i {
                    assert(before_seq(was[i as int], was[b - 1]));
                    lemma_before_transitive(text@, was[i as int], was[b - 1]);
                }
            }
        }
        assert forall|t: Seq<char>| #[trigger] now.contains(t) <==> was.contains(t) || t == text@ by {
            if was.contains(t) {
                let k = was.index_of(t);
                let k2 = if k < i { k } else { k + 1 };
                assert(now[k2] == t);
            }
            if t == text@ {
                assert(now[i as int] == t);
            }
            if now.contains(t) {
                let k = now.index_of(t);
                if k != i {
                    let k2 = if k < i { k } else { k - 1 };
                    assert(was[k2] == t);
                }
            }
        }
    }
}

/// Whether a list holds a text.
pub fn has_text(list: &Vec<String>, text: &str) -> (r: bool)
    ensures
        r == texts(list@).contains(text@),
{
    let mut i: usize = 0;
    while i < list.len()
        invariant
            i <= list@.len(),
            forall|j: int| 0 <= j < i ==> #[trigger] texts(list@)[j] != text@,
        decreases list@.len() - i,
    {
        if same(list[i].as_str(), text) {
            assert(texts(list@)[i as int] == text@);
            return true;
        }
        i = i + 1;
    }
    false
}

/// Text always has a piece.
pub proof fn lemma_some_piece(s: Seq<char>, sep: char)
    ensures
        pieces(s, sep).len() >= 1,
    decreases s.len(),
{
    if s.len() > 0 {
        lemma_some_piece(s.drop_last(), sep);
    }
}

/// A separator parts a text: the pieces of the whole are those before it and then those behind it.
pub proof fn separators_part_a_text(a: Seq<char>, sep: char, b: Seq<char>)
    ensures
        pieces(a.push(sep) + b, sep) == pieces(a, sep) + pieces(b, sep),
    decreases b.len(),
{
    let s = a.push(sep) + b;
    lemma_some_piece(b, sep);
    if b.len() == 0 {
        assert(s =~= a.push(sep));
        assert(s.drop_last() =~= a);
        assert(pieces(s, sep) =~= pieces(a, sep) + pieces(b, sep));
    } else {
        let rest = b.drop_last();
        assert(s.drop_last() =~= a.push(sep) + rest);
        assert(s.last() == b.last());
        separators_part_a_text(a, sep, rest);
        lemma_some_piece(rest, sep);
        assert(pieces(s, sep) =~= pieces(a, sep) + pieces(b, sep));
    }
}

/// A text without separators is one piece.
pub proof fn unparted_text_is_one_piece(s: Seq<char>, sep: char)
    requires
        !s.contains(sep),
    ensures
        pieces(s, sep) == seq![s],
    decreases s.len(),
{
    if s.len() == 0 {
        assert(s =~= Seq::<char>::empty());
    } else {
        let rest = s.drop_last();
        assert(s.last() != sep) by {
            assert(s[s.len() - 1] == s.last());
        }
        assert forall|i: int| 0 <= i < rest.len() implies rest[i] != sep by {
            assert(s[i] == rest[i]);
        }
        unparted_text_is_one_piece(rest, sep);
        assert(rest.push(s.last()) =~= s);
        assert(pieces(s, sep) =~= seq![s]);
    }
}

/// No piece holds the separator.
pub proof fn lemma_pieces_unparted(s: Seq<char>, sep: char)
    ensures
        forall|i: int| 0 <= i < pieces(s, sep).len() ==> !(#[trigger] pieces(s, sep)[i]).contains(sep),
    decreases s.len(),
{
    if s.len() > 0 {
        let rest = s.drop_last();
        lemma_pieces_unparted(rest, sep);
        lemma_some_piece(rest, sep);
        let init = pieces(rest, sep);
        let all = pieces(s, sep);
        assert forall|i: int| 0 <= i < all.len() implies !(#[trigger] all[i]).contains(sep) by {
            if i < init.len() {
                assert(!init[i].contains(sep));
                if all[i].contains(sep) {
                    let w = all[i].index_of(sep);
                    assert(w < init[i].len() ==> init[i][w] == sep);
                }
            }
        }
    }
}

/// Texts that are joined by a separator that none of them holds are the pieces of the whole.
pub proof fn joined_texts_part_again(parts: Seq<Seq<char>>, sep: char)
    requires
        parts.len() > 0,
        forall|i: int| 0 <= i < parts.len() ==> !(#[trigger] parts[i]).contains(sep),
    ensures
        pieces(join_seq(parts, seq![sep]), sep) == parts,
    decreases parts.len(),
{
    assert(!parts[parts.len() - 1].contains(sep));
    unparted_text_is_one_piece(parts.last(), sep);
    if parts.len() == 1 {
        assert(parts =~= seq![parts.last()]);
    } else {
        let rest = parts.drop_last();
        assert forall|i: int| 0 <= i < rest.len() implies !(#[trigger] rest[i]).contains(sep) by {
            assert(rest[i] == parts[i]);
        }
        joined_texts_part_again(rest, sep);
        let front = join_seq(rest, seq![sep]);
        separators_part_a_text(front, sep, parts.last());
        assert(front.push(sep) + parts.last() =~= front + seq![sep] + parts.last());
        assert(rest + seq![parts.last()] =~= parts);
    }
}

/// Numbers that are written are read back.
pub proof fn numbers_are_read_back(n: nat)
    ensures
        number_seq(decimal_seq(n)) == Some(n),
        decimal_seq(n).len() > 0,
        decimal_seq(n)[0] != '+',
        forall|max: nat| n <= max ==> #[trigger] parsed_seq(decimal_seq(n), max) == Some(n),
    decreases n,
{
    let s = decimal_seq(n);
    let d = n % 10;
    assert((48 + d) as char as nat == 48 + d);
    if n >= 10 {
        numbers_are_read_back(n / 10);
        assert(s.drop_last() =~= decimal_seq(n / 10));
        assert(s.last() == digit_char(d));
        assert(s[0] == decimal_seq(n / 10)[0]);
        assert(n == (n / 10) * 10 + n % 10);
    } else {
        assert(d == n);
        assert(s.last() == digit_char(n));
    }
}

/// The words of a text are those on either side of a space, each by itself.
pub proof fn spaces_part_words(a: Seq<char>, space: char, b: Seq<char>)
    requires
        space_char(space),
    ensures
        words_seq(a.push(space) + b) == words_seq(a) + words_seq(b),
    decreases b.len(),
{
    let s = a.push(space) + b;
    if b.len() == 0 {
        assert(s =~= a.push(space));
        assert(s.drop_last() =~= a);
        assert(words_seq(a) + words_seq(b) =~= words_seq(a));
    } else {
        let rest = b.drop_last();
        assert(s.drop_last() =~= a.push(space) + rest);
        spaces_part_words(a, space, rest);
        let wa = words_seq(a);
        let wr = words_seq(rest);
        if !space_char(b.last()) {
            if b.len() >= 2 && !space_char(b[b.len() - 2]) {
                lemma_last_word(rest);
                assert(s[s.len() - 2] == b[b.len() - 2]);
                assert((wa + wr).last() == wr.last());
                assert(words_seq(s) =~= wa + words_seq(b));
            } else {
                assert(s[s.len() - 2] == (if b.len() >= 2 {
                    b[b.len() - 2]
                } else {
                    space
                }));
                assert(words_seq(s) =~= wa + words_seq(b));
            }
        }
    }
}

proof fn lemma_last_word(s: Seq<char>)
    requires
        s.len() > 0,
        !space_char(s.last()),
    ensures
        words_seq(s).len() > 0,
    decreases s.len(),
{
    if s.len() >= 2 && !space_char(s[s.len() - 2]) {
        lemma_last_word(s.drop_last());
    }
}

/// A text without a space is one word.
pub proof fn unspaced_text_is_one_word(s: Seq<char>)
    requires
        s.len() > 0,
        forall|i: int| 0 <= i < s.len() ==> !space_char(#[trigger] s[i]),
    ensures
        words_seq(s) == seq![s],
    decreases s.len(),
{
    if s.len() > 1 {
        unspaced_text_is_one_word(s.drop_last());
        assert(s.drop_last().push(s.last()) =~= s);
        assert(words_seq(s) =~= seq![s]);
    } else {
        assert(words_seq(s.drop_last()) =~= Seq::<Seq<char>>::empty());
        assert(seq![s.last()] =~= s);
        assert(words_seq(s) =~= seq![s]);
    }
}

/// Trimming takes away the spaces at the ends and nothing else.
pub proof fn trimming_takes_the_spaces_at_the_ends(before: Seq<char>, inner: Seq<char>, behind: Seq<char>)
    requires
        inner.len() > 0,
        !space_char(inner[0]),
        !space_char(inner.last()),
        forall|i: int| 0 <= i < before.len() ==> space_char(#[trigger] before[i]),
        forall|i: int| 0 <= i < behind.len() ==> space_char(#[trigger] behind[i]),
    ensures
        trim_seq(before + inner + behind) == inner,
    decreases before.len() + behind.len(),
{
    let s = before + inner + behind;
    if before.len() > 0 {
        assert(s[0] == before[0]);
        assert(s.skip(1) =~= before.skip(1) + inner + behind);
        trimming_takes_the_spaces_at_the_ends(before.skip(1), inner, behind);
    } else {
        assert(s[0] == inner[0]);
        assert(trim_start_seq(s) == s);
        if behind.len() > 0 {
            assert(s.last() == behind.last());
            assert(s.drop_last() =~= before + inner + behind.drop_last());
            trimming_takes_the_spaces_at_the_ends(before, inner, behind.drop_last());
            assert((before + inner + behind.drop_last())[0] == inner[0]);
            assert(trim_start_seq(before + inner + behind.drop_last()) == before + inner + behind.drop_last());
        } else {
            assert(s =~= inner);
        }
    }
}

} // verus!
