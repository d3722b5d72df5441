//! Text primitives over `str`/`String`, specified over `Seq<char>`.

use vstd::prelude::*;

verus! {

/// Appends one character to a `String` (`String::push`).
/// Claims that the string's characters gain `c` at the end.
#[verifier::external_body]
pub(crate) fn push_char(s: &mut String, c: char)
    ensures
        final(s)@ == old(s)@.push(c),
{
    s.push(c);
}

/// The characters of `s`, in order.
pub fn chars_of(s: &str) -> (res: Vec<char>)
    ensures
        res@ == s@,
{
    let mut res: Vec<char> = Vec::new();
    for c in it: s.chars()
        invariant
            res@ == it.seq().take(it.index() as int),
            it.seq() == s@,
    {
        res.push(c);
    }
    res
}


/// Unicode `White_Space`, the set that `char::is_whitespace` tests.
pub open spec fn is_ws(c: char) -> bool {
    ||| ('\u{9}' <= c && c <= '\u{d}')
    ||| c == ' '
    ||| c == '\u{85}'
    ||| c == '\u{a0}'
    ||| c == '\u{1680}'
    ||| ('\u{2000}' <= c && c <= '\u{200a}')
    ||| c == '\u{2028}'
    ||| c == '\u{2029}'
    ||| c == '\u{202f}'
    ||| c == '\u{205f}'
    ||| c == '\u{3000}'
}

/// Whether `c` is Unicode whitespace.
pub fn is_whitespace(c: char) -> (res: bool)
    ensures
        res == is_ws(c),
{
    ('\u{9}' <= c && c <= '\u{d}') || c == ' ' || c == '\u{85}' || c == '\u{a0}' || c == '\u{1680}'
        || ('\u{2000}' <= c && c <= '\u{200a}') || c == '\u{2028}' || c == '\u{2029}'
        || c == '\u{202f}' || c == '\u{205f}' || c == '\u{3000}'
}

/// The views of a sequence of strings.
pub open spec fn views(v: Seq<String>) -> Seq<Seq<char>> {
    v.map_values(|x: String| x@)
}

/// The whitespace-separated fields of `s`: its maximal runs of
/// non-whitespace characters, in order.
pub open spec fn fields(s: Seq<char>) -> Seq<Seq<char>>
    decreases s.len(),
{
    if s.len() == 0 {
        seq![]
    } else {
        let prev = fields(s.drop_last());
        let c = s.last();
        if is_ws(c) {
            prev
        } else if s.len() >= 2 && !is_ws(s[s.len() - 2]) {
            prev.update(prev.len() - 1, prev.last().push(c))
        } else {
            prev.push(seq![c])
        }
    }
}

/// Splits `s` at whitespace, dropping empty pieces (`str::split_whitespace`).
pub fn split_fields(s: &str) -> (res: Vec<String>)
    ensures
        views(res@) == fields(s@),
{
    let cs = chars_of(s);
    let n = cs.len();
    let mut out: Vec<String> = Vec::new();
    let mut start: usize = 0;
    let mut in_field = false;
    let mut i: usize = 0;
    assert(s@.take(0) =~= Seq::<char>::empty());
    while i < n
        invariant
            cs@ == s@,
            n == s@.len(),
            i <= n,
            in_field ==> start < i,
            in_field <==> (i > 0 && !is_ws(s@[i - 1])),
            fields(s@.take(i as int)) == views(out@) + (if in_field {
                seq![s@.subrange(start as int, i as int)]
            } else {
                Seq::<Seq<char>>::empty()
            }),
        decreases n - i,
    {
        let c = cs[i];
        let ghost prev = s@.take(i as int);
        assert(s@.take(i + 1).drop_last() =~= prev);
        assert(s@.take(i + 1).last() == c);
        if is_whitespace(c) {
            if in_field {
                let ghost old_out = out@;
                let piece = String::from_str(s.substring_char(start, i));
                out.push(piece);
                assert(views(out@) =~= views(old_out).push(s@.subrange(start as int, i as int)));
            }
            in_field = false;
        } else {
            if !in_field {
                start = i;
                in_field = true;
                assert(s@.subrange(i as int, i + 1) =~= seq![c]);
            } else {
                assert(s@.subrange(start as int, i + 1) =~= s@.subrange(start as int, i as int).push(c));
            }
        }
        i = i + 1;
    }
    if in_field {
        let ghost old_out = out@;
        let piece = String::from_str(s.substring_char(start, n));
        out.push(piece);
        assert(views(out@) =~= views(old_out).push(s@.subrange(start as int, n as int)));
    }
    assert(s@.take(n as int) =~= s@);
    out
}


/// The pieces of `s` between `'\n'` characters; there is always at least one.
pub open spec fn newline_pieces(s: Seq<char>) -> Seq<Seq<char>>
    decreases s.len(),
{
    if s.len() == 0 {
        seq![Seq::<char>::empty()]
    } else {
        let prev = newline_pieces(s.drop_last());
        if s.last() == '\n' {
            prev.push(Seq::<char>::empty())
        } else {
            prev.update(prev.len() - 1, prev.last().push(s.last()))
        }
    }
}

/// `line` without one trailing carriage return, if it has one.
pub open spec fn strip_cr(line: Seq<char>) -> Seq<char> {
    if line.len() > 0 && line.last() == '\r' {
        line.drop_last()
    } else {
        line
    }
}

/// The lines of `s` as `str::lines` yields them: every piece that a `'\n'`
/// ends, without one trailing `'\r'`, then the final piece if it is not empty.
pub open spec fn lines(s: Seq<char>) -> Seq<Seq<char>> {
    let pieces = newline_pieces(s);
    let ended = pieces.drop_last().map_values(|p: Seq<char>| strip_cr(p));
    if pieces.last().len() > 0 {
        ended.push(pieces.last())
    } else {
        ended
    }
}

/// Splits `s` into lines (`str::lines`).
pub fn split_lines(s: &str) -> (res: Vec<String>)
    ensures
        views(res@) == lines(s@),
{
    let cs = chars_of(s);
    let n = cs.len();
    let mut out: Vec<String> = Vec::new();
    let mut start: usize = 0;
    let mut i: usize = 0;
    assert(s@.take(0) =~= Seq::<char>::empty());
    assert(s@.subrange(0, 0) =~= Seq::<char>::empty());
    while i < n
        invariant
            cs@ == s@,
            n == s@.len(),
            start <= i <= n,
            newline_pieces(s@.take(i as int)).len() >= 1,
            newline_pieces(s@.take(i as int)).drop_last().map_values(|p: Seq<char>| strip_cr(p))
                == views(out@),
            newline_pieces(s@.take(i as int)).last() == s@.subrange(start as int, i as int),
        decreases n - i,
    {
        let c = cs[i];
        let ghost prev = newline_pieces(s@.take(i as int));
        assert(s@.take(i + 1).drop_last() =~= s@.take(i as int));
        assert(s@.take(i + 1).last() == c);
        if c == '\n' {
            let end = if i > start && cs[i - 1] == '\r' {
                i - 1
            } else {
                i
            };
            let ghost old_out = out@;
            let piece = String::from_str(s.substring_char(start, end));
            out.push(piece);
            assert(s@.subrange(start as int, end as int) == strip_cr(
                s@.subrange(start as int, i as int),
            )) by {
                if i > start && s@[i - 1] == '\r' {
                    assert(s@.subrange(start as int, i as int).drop_last() =~= s@.subrange(
                        start as int,
                        end as int,
                    ));
                }
            }
            let ghost next = newline_pieces(s@.take(i + 1));
            assert(next == prev.push(Seq::<char>::empty()));
            assert(next.drop_last() =~= prev);
            assert(prev =~= prev.drop_last().push(prev.last()));
            assert(views(out@) =~= views(old_out).push(s@.subrange(start as int, end as int)));
            assert(next.drop_last().map_values(|p: Seq<char>| strip_cr(p)) =~= prev.drop_last().map_values(
                |p: Seq<char>| strip_cr(p),
            ).push(strip_cr(prev.last())));
            start = i + 1;
            assert(s@.subrange(start as int, start as int) =~= Seq::<char>::empty());
        } else {
            let ghost next = newline_pieces(s@.take(i + 1));
            assert(next == prev.update(prev.len() - 1, prev.last().push(c)));
            assert(next.drop_last() =~= prev.drop_last());
            assert(s@.subrange(start as int, i + 1) =~= s@.subrange(start as int, i as int).push(c));
        }
        i = i + 1;
    }
    assert(s@.take(n as int) =~= s@);
    if start < n {
        let ghost old_out = out@;
        let piece = String::from_str(s.substring_char(start, n));
        out.push(piece);
        assert(views(out@) =~= views(old_out).push(s@.subrange(start as int, n as int)));
    }
    out
}


/// `s` without its leading whitespace.
pub open spec fn trim_start(s: Seq<char>) -> Seq<char>
    decreases s.len(),
{
    if s.len() > 0 && is_ws(s[0]) {
        trim_start(s.drop_first())
    } else {
        s
    }
}

/// `s` without its trailing whitespace.
pub open spec fn trim_end(s: Seq<char>) -> Seq<char>
    decreases s.len(),
{
    if s.len() > 0 && is_ws(s.last()) {
        trim_end(s.drop_last())
    } else {
        s
    }
}

/// `s` without leading and trailing whitespace (`str::trim`).
pub open spec fn trimmed(s: Seq<char>) -> Seq<char> {
    trim_end(trim_start(s))
}

proof fn lemma_trim_start_at(s: Seq<char>, k: int)
    requires
        0 <= k <= s.len(),
        forall|j: int| 0 <= j < k ==> is_ws(#[trigger] s[j]),
        k == s.len() || !is_ws(s[k]),
    ensures
        trim_start(s) == s.subrange(k, s.len() as int),
    decreases k,
{
    if k == 0 {
        assert(s.subrange(0, s.len() as int) =~= s);
    } else {
        let t = s.drop_first();
        assert forall|j: int| 0 <= j < k - 1 implies is_ws(#[trigger] t[j]) by {
            assert(t[j] == s[j + 1]);
        }
        lemma_trim_start_at(t, k - 1);
        assert(t.subrange(k - 1, t.len() as int) =~= s.subrange(k, s.len() as int));
    }
}

proof fn lemma_trim_end_at(s: Seq<char>, k: int)
    requires
        0 <= k <= s.len(),
        forall|j: int| k <= j < s.len() ==> is_ws(#[trigger] s[j]),
        k == 0 || !is_ws(s[k - 1]),
    ensures
        trim_end(s) == s.subrange(0, k),
    decreases s.len() - k,
{
    if k == s.len() {
        assert(s.subrange(0, k) =~= s);
    } else {
        let t = s.drop_last();
        lemma_trim_end_at(t, k);
        assert(t.subrange(0, k) =~= s.subrange(0, k));
    }
}

/// `s` without leading and trailing whitespace (`str::trim`).
pub fn trim(s: &str) -> (res: String)
    ensures
        res@ == trimmed(s@),
{
    let cs = chars_of(s);
    let n = cs.len();
    let mut a: usize = 0;
    while a < n && is_whitespace(cs[a])
        invariant
            cs@ == s@,
            n == s@.len(),
            a <= n,
            forall|j: int| 0 <= j < a ==> is_ws(#[trigger] s@[j]),
        decreases n - a,
    {
        a = a + 1;
    }
    let mut b: usize = n;
    while b > a && is_whitespace(cs[b - 1])
        invariant
            cs@ == s@,
            n == s@.len(),
            a <= b <= n,
            a < n ==> !is_ws(s@[a as int]),
            forall|j: int| b <= j < n ==> is_ws(#[trigger] s@[j]),
        decreases b,
    {
        b = b - 1;
    }
    proof {
        lemma_trim_start_at(s@, a as int);
        let t = s@.subrange(a as int, n as int);
        assert forall|j: int| b - a <= j < t.len() implies is_ws(#[trigger] t[j]) by {
            assert(t[j] == s@[a + j]);
        }
        if b > a {
            assert(t[b - a - 1] == s@[b - 1]);
        }
        lemma_trim_end_at(t, b - a);
        assert(t.subrange(0, b - a) =~= s@.subrange(a as int, b as int));
    }
    String::from_str(s.substring_char(a, b))
}

/// Whether `pat` occurs in `s` as a run of consecutive characters.
pub open spec fn occurs_in(s: Seq<char>, pat: Seq<char>) -> bool {
    exists|i: int| 0 <= i && i + pat.len() <= s.len() && #[trigger] s.subrange(i, i + pat.len()) == pat
}

/// Whether `pat` occurs in `s` (`str::contains` with a string pattern).
pub fn contains(s: &str, pat: &str) -> (res: bool)
    ensures
        res == occurs_in(s@, pat@),
{
    let cs = chars_of(s);
    let ps = chars_of(pat);
    let n = cs.len();
    let m = ps.len();
    if m > n {
        return false;
    }
    let mut i: usize = 0;
    while i <= n - m
        invariant
            cs@ == s@,
            ps@ == pat@,
            n == s@.len(),
            m == pat@.len(),
            m <= n,
            i <= n - m + 1,
            forall|k: int| 0 <= k < i ==> #[trigger] s@.subrange(k, k + m) != pat@,
        decreases n - m + 1 - i,
    {
        let mut j: usize = 0;
        while j < m && cs[i + j] == ps[j]
            invariant
                cs@ == s@,
                ps@ == pat@,
                n == s@.len(),
                m == pat@.len(),
                i + m <= n,
                j <= m,
                forall|k: int| 0 <= k < j ==> s@[i + k] == pat@[k],
            decreases m - j,
        {
            j = j + 1;
        }
        if j == m {
            assert(s@.subrange(i as int, i + m) =~= pat@);
            return true;
        }
        assert(s@.subrange(i as int, i + m)[j as int] != pat@[j as int]);
        i = i + 1;
    }
    false
}

/// The pieces of `list` joined with `sep` between each two.
pub open spec fn joined(list: Seq<Seq<char>>, sep: Seq<char>) -> Seq<char>
    decreases list.len(),
{
    if list.len() == 0 {
        Seq::<char>::empty()
    } else if list.len() == 1 {
        list[0]
    } else {
        joined(list.drop_last(), sep) + sep + list.last()
    }
}

/// `list[from..]` joined with `sep` (`[String]::join`).
pub fn join_from(list: &Vec<String>, from: usize, sep: &str) -> (res: String)
    requires
        from <= list.len(),
    ensures
        res@ == joined(views(list@).skip(from as int), sep@),
{
    let mut res = String::new();
    let n = list.len();
    let mut i = from;
    assert(views(list@).skip(from as int).take(0) =~= Seq::<Seq<char>>::empty());
    while i < n
        invariant
            n == list.len(),
            from <= i <= n,
            res@ == joined(views(list@).skip(from as int).take(i - from), sep@),
        decreases n - i,
    {
        let ghost tail = views(list@).skip(from as int);
        assert(tail.take(i + 1 - from).drop_last() =~= tail.take(i - from));
        assert(tail.take(i + 1 - from).last() == list@[i as int]@);
        if i > from {
            res.append(sep);
        } else {
            assert(tail.take(1) =~= seq![list@[i as int]@]);
        }
        res.append(list[i].as_str());
        i = i + 1;
    }
    assert(views(list@).skip(from as int).take(n - from) =~= views(list@).skip(from as int));
    res
}


/// The character of the decimal digit `d`.
pub open spec fn digit_char(d: nat) -> char {
    ((d + 48) as u8) as char
}

/// The decimal representation of `n`, without leading zeros.
pub open spec fn decimal(n: nat) -> Seq<char>
    decreases n,
{
    if n < 10 {
        seq![digit_char(n)]
    } else {
        decimal(n / 10).push(digit_char(n % 10))
    }
}

/// The decimal representation of `n` (`u32::to_string`).
pub fn decimal_string(n: u32) -> (res: String)
    ensures
        res@ == decimal(n as nat),
    decreases n,
{
    let d = ((n % 10) as u8 + 48u8) as char;
    if n < 10 {
        let mut s = String::new();
        push_char(&mut s, d);
        assert(s@ =~= seq![digit_char(n as nat)]);
        s
    } else {
        let mut s = decimal_string(n / 10);
        push_char(&mut s, d);
        s
    }
}


/// Whether `c` is one of `'0'..='9'`.
pub open spec fn is_digit(c: char) -> bool {
    '0' <= c && c <= '9'
}

/// The value of a string of decimal digits.
pub open spec fn digits_value(ds: Seq<char>) -> nat
    decreases ds.len(),
{
    if ds.len() == 0 {
        0
    } else {
        digits_value(ds.drop_last()) * 10 + ((ds.last() as nat) - 48) as nat
    }
}

/// What `u32::from_str` accepts: an optional `'+'` and then one or more
/// decimal digits whose value fits in a `u32`.
pub open spec fn decimal_u32(s: Seq<char>) -> Option<u32> {
    let ds = if s.len() > 0 && s[0] == '+' {
        s.drop_first()
    } else {
        s
    };
    if ds.len() > 0 && (forall|i: int| 0 <= i < ds.len() ==> is_digit(#[trigger] ds[i]))
        && digits_value(ds) <= u32::MAX {
        Some(digits_value(ds) as u32)
    } else {
        None
    }
}

/// Why `u32::from_str` rejects a text.
#[derive(Clone, Copy, Debug, PartialEq, Eq, Structural)]
pub enum U32ParseFailure {
    /// The text is empty.
    Empty,
    /// The text holds a character that is not a digit where one is expected.
    InvalidDigit,
    /// The number is too large for a `u32`.
    TooLarge,
}

/// Whether `s` is an optional `'+'` followed by one or more decimal digits.
pub open spec fn is_decimal_form(s: Seq<char>) -> bool {
    let ds = if s.len() > 0 && s[0] == '+' {
        s.drop_first()
    } else {
        s
    };
    ds.len() > 0 && forall|i: int| 0 <= i < ds.len() ==> is_digit(#[trigger] ds[i])
}

/// Which failure `u32::from_str` reports for a text that is not of decimal
/// form and has more than nine characters.
pub uninterp spec fn long_text_failure(s: Seq<char>) -> U32ParseFailure;

/// The failure that `u32::from_str` reports for a text it rejects: `Empty`
/// for the empty text; `TooLarge` for digits whose value does not fit;
/// `InvalidDigit` for any other text of at most nine characters, which holds
/// no number too large. For a longer text that is not of decimal form the
/// documentation does not say whether a misplaced character or the size is
/// reported, and `long_text_failure` names what is.
pub open spec fn parse_failure(s: Seq<char>) -> U32ParseFailure {
    if s.len() == 0 {
        U32ParseFailure::Empty
    } else if is_decimal_form(s) {
        U32ParseFailure::TooLarge
    } else if s.len() <= 9 {
        U32ParseFailure::InvalidDigit
    } else {
        long_text_failure(s)
    }
}

/// How a parse failure is written (the `Display` text of `ParseIntError`).
pub open spec fn failure_text(k: U32ParseFailure) -> Seq<char> {
    match k {
        U32ParseFailure::Empty => "cannot parse integer from empty string"@,
        U32ParseFailure::InvalidDigit => "invalid digit found in string"@,
        U32ParseFailure::TooLarge => "number too large to fit in target type"@,
    }
}

/// How a parse failure is written (see `failure_text`).
pub fn failure_message(k: U32ParseFailure) -> (res: String)
    ensures
        res@ == failure_text(k),
{
    match k {
        U32ParseFailure::Empty => String::from_str("cannot parse integer from empty string"),
        U32ParseFailure::InvalidDigit => String::from_str("invalid digit found in string"),
        U32ParseFailure::TooLarge => String::from_str("number too large to fit in target type"),
    }
}

/// Calls `str::parse::<u32>` (`u32::from_str`). Claims that it succeeds
/// exactly on an optional `'+'` followed by decimal digits whose value fits in
/// a `u32`, and then gives that value. On failure it claims the error kind
/// that `parse_failure` gives: empty input is `Empty`, digits too large are
/// `TooLarge` (`PosOverflow`), other short input is `InvalidDigit`; which kind
/// a longer malformed text gets is left to the name `long_text_failure`.
#[verifier::external_body]
pub(crate) fn parse_u32(s: &str) -> (res: Result<u32, U32ParseFailure>)
    ensures
        res is Ok <==> decimal_u32(s@) is Some,
        res matches Ok(v) ==> decimal_u32(s@) == Some(v),
        res matches Err(k) ==> k == parse_failure(s@),
        s@.len() > 9 && !is_decimal_form(s@) ==> (res matches Err(k) ==> k == long_text_failure(s@)),
{
    match s.parse::<u32>() {
        Ok(v) => Ok(v),
        Err(e) => match e.kind() {
            std::num::IntErrorKind::Empty => Err(U32ParseFailure::Empty),
            std::num::IntErrorKind::PosOverflow => Err(U32ParseFailure::TooLarge),
            std::num::IntErrorKind::InvalidDigit => Err(U32ParseFailure::InvalidDigit),
            _ => Err(U32ParseFailure::InvalidDigit),
        },
    }
}

/// Calls `std::str::from_utf8`. Claims that it succeeds exactly on valid
/// UTF-8, and then gives the string whose UTF-8 encoding is `bytes`.
#[verifier::external_body]
pub(crate) fn str_from_utf8(bytes: &[u8]) -> (res: Option<&str>)
    ensures
        res is Some <==> vstd::utf8::valid_utf8(bytes@),
        res matches Some(s) ==> vstd::utf8::encode_utf8(s@) == bytes@,
{
    std::str::from_utf8(bytes).ok()
}


/// Whether `a` and `b` hold the same characters.
pub fn same_text(a: &str, b: &str) -> (res: bool)
    ensures
        res == (a@ == b@),
{
    let ac = chars_of(a);
    let bc = chars_of(b);
    if ac.len() != bc.len() {
        return false;
    }
    let mut i: usize = 0;
    while i < ac.len()
        invariant
            ac@ == a@,
            bc@ == b@,
            ac.len() == bc.len(),
            i <= ac.len(),
            forall|j: int| 0 <= j < i ==> a@[j] == b@[j],
        decreases ac.len() - i,
    {
        if ac[i] != bc[i] {
            return false;
        }
        i = i + 1;
    }
    assert(a@ =~= b@);
    true
}


/// Every field of a text is non-empty and holds no whitespace.
pub proof fn lemma_fields_clean(s: Seq<char>)
    ensures
        forall|i: int| 0 <= i < fields(s).len() ==> (#[trigger] fields(s)[i]).len() > 0,
        forall|i: int, j: int|
            0 <= i < fields(s).len() && 0 <= j < fields(s)[i].len() ==> !is_ws(
                #[trigger] fields(s)[i][j],
            ),
        s.len() > 0 && !is_ws(s.last()) ==> fields(s).len() > 0,
    decreases s.len(),
{
    if s.len() > 0 {
        let t = s.drop_last();
        lemma_fields_clean(t);
        let c = s.last();
        if !is_ws(c) && s.len() >= 2 && !is_ws(s[s.len() - 2]) {
            assert(t.last() == s[s.len() - 2]);
            let prev = fields(t);
            let f = fields(s);
            assert forall|i: int, j: int|
                0 <= i < f.len() && 0 <= j < f[i].len() implies !is_ws(#[trigger] f[i][j]) by {
                if i == prev.len() - 1 {
                    if j < prev[i].len() {
                        assert(f[i][j] == prev[i][j]);
                    }
                } else {
                    assert(f[i] == prev[i]);
                }
            }
        }
    }
}

proof fn lemma_trim_start_front(s: Seq<char>)
    ensures
        trim_start(s).len() > 0 ==> !is_ws(trim_start(s)[0]),
        trim_start(s).len() <= s.len(),
    decreases s.len(),
{
    if s.len() > 0 && is_ws(s[0]) {
        lemma_trim_start_front(s.drop_first());
    }
}

proof fn lemma_trim_end_keeps_front(s: Seq<char>)
    ensures
        trim_end(s).len() > 0 ==> trim_end(s)[0] == s[0],
        trim_end(s).len() > 0 ==> !is_ws(trim_end(s).last()),
    decreases s.len(),
{
    if s.len() > 0 && is_ws(s.last()) {
        lemma_trim_end_keeps_front(s.drop_last());
    }
}

/// A trimmed text neither starts nor ends with whitespace.
pub proof fn lemma_trimmed_edges(s: Seq<char>)
    ensures
        trimmed(s).len() > 0 ==> !is_ws(trimmed(s)[0]) && !is_ws(trimmed(s).last()),
{
    lemma_trim_start_front(s);
    lemma_trim_end_keeps_front(trim_start(s));
}

proof fn lemma_decimal_digits(n: nat)
    ensures
        decimal(n).len() > 0,
        forall|i: int| 0 <= i < decimal(n).len() ==> is_digit(#[trigger] decimal(n)[i]),
        digits_value(decimal(n)) == n,
    decreases n,
{
    if n >= 10 {
        lemma_decimal_digits(n / 10);
        let d = decimal(n);
        let p = decimal(n / 10);
        assert forall|i: int| 0 <= i < d.len() implies is_digit(#[trigger] d[i]) by {
            if i < p.len() {
                assert(d[i] == p[i]);
            }
        }
        assert(d.drop_last() =~= p);
        assert(d.last() == digit_char(n % 10));
        assert(digit_char(n % 10) as nat == n % 10 + 48);
        assert((n / 10) * 10 + n % 10 == n) by (nonlinear_arith);
        assert(digits_value(d) == digits_value(p) * 10 + n % 10);
        assert(digits_value(d) == n);
    } else {
        let d = decimal(n);
        assert(d.drop_last() =~= Seq::<char>::empty());
        assert(d.last() == digit_char(n));
        assert(digit_char(n) as nat == n + 48);
        assert(digits_value(d.drop_last()) == 0);
        assert(digits_value(d) == n);
    }
}

/// A number written in decimal reads back as the same number.
pub proof fn lemma_decimal_parses_back(n: u32)
    ensures
        decimal_u32(decimal(n as nat)) == Some(n),
{
    lemma_decimal_digits(n as nat);
    let d = decimal(n as nat);
    assert(is_digit(d[0]));
}

} // verus!
