//! The right-hand status line: volume, keyboard layout and clock.

use vstd::prelude::*;
use vstd::utf8::{decode_utf8, encode_utf8, valid_utf8};
use crate::text::{decimal, decimal_string, occurs_in, contains, str_from_utf8, push_char};

verus! {

broadcast use vstd::utf8::group_utf8_lib;

/// The volume reading shown in the status line.
#[derive(Clone, Copy, Debug, PartialEq, Eq, Structural)]
pub struct VolumeState {
    percent: u16,
    known: bool,
    muted: bool,
}

impl View for VolumeState {
    /// `(percent, known, muted)`
    type V = (u16, bool, bool);

    closed spec fn view(&self) -> (u16, bool, bool) {
        (self.percent, self.known, self.muted)
    }
}

/// How a volume reading is written: `??%` when unknown, `0%` when muted,
/// the percentage otherwise.
pub open spec fn volume_text(v: (u16, bool, bool)) -> Seq<char> {
    if !v.1 {
        "??%"@
    } else {
        decimal(if v.2 { 0 } else { v.0 as nat }).push('%')
    }
}

impl VolumeState {
    /// No reading is available.
    pub fn unknown() -> (res: Self)
        ensures
            res@ == (0u16, false, false),
    {
        VolumeState { percent: 0, known: false, muted: false }
    }

    /// A known reading.
    pub fn new(percent: u16, muted: bool) -> (res: Self)
        ensures
            res@ == (percent, true, muted),
    {
        VolumeState { percent, known: true, muted }
    }

    /// Replaces `self` with `next` and tells whether that changed it.
    pub fn replace_if_changed(&mut self, next: Self) -> (changed: bool)
        ensures
            *final(self) == next,
            changed == (*old(self) != next),
    {
        if *self == next {
            false
        } else {
            *self = next;
            true
        }
    }

    fn push_to(self, out: &mut String)
        ensures
            final(out)@ == old(out)@ + volume_text(self@),
    {
        if !self.known {
            out.append("??%");
            return;
        }
        let value: u16 = if self.muted {
            0
        } else {
            self.percent
        };
        let digits = decimal_string(value as u32);
        out.append(digits.as_str());
        out.append("%");
        proof {
            reveal_strlit("%");
            assert(decimal(value as nat) + "%"@ =~= decimal(value as nat).push('%'));
        }
    }
}

/// The text of a byte string: its characters when it is valid UTF-8, else
/// `fallback`.
pub open spec fn decoded_or(bytes: Seq<u8>, fallback: Seq<char>) -> Seq<char> {
    if valid_utf8(bytes) {
        decode_utf8(bytes)
    } else {
        fallback
    }
}

fn push_decoded(out: &mut String, bytes: &[u8], fallback: &str)
    ensures
        final(out)@ == old(out)@ + decoded_or(bytes@, fallback@),
{
    match str_from_utf8(bytes) {
        Some(s) => {
            proof {
                vstd::utf8::encode_utf8_decode_utf8(s@);
            }
            out.append(s);
        },
        None => out.append(fallback),
    }
}

/// The first `len` bytes of `bytes`, as a vector.
fn prefix_bytes(bytes: &[u8], len: usize) -> (res: Vec<u8>)
    requires
        len <= bytes@.len(),
    ensures
        res@ == bytes@.take(len as int),
{
    let mut res: Vec<u8> = Vec::new();
    let mut i: usize = 0;
    while i < len
        invariant
            len <= bytes@.len(),
            i <= len,
            res@ == bytes@.take(i as int),
        decreases len - i,
    {
        res.push(bytes[i]);
        i = i + 1;
        assert(res@ =~= bytes@.take(i as int));
    }
    res
}


/// Whether `b` is an ASCII letter (`u8::is_ascii_alphabetic`).
pub open spec fn is_alpha(b: u8) -> bool {
    (65 <= b && b <= 90) || (97 <= b && b <= 122)
}

/// `b` with an ASCII capital made small (`u8::to_ascii_lowercase`).
pub open spec fn lower(b: u8) -> u8 {
    if 65 <= b && b <= 90 {
        (b + 32) as u8
    } else {
        b
    }
}

fn is_ascii_alphabetic(b: u8) -> (res: bool)
    ensures
        res == is_alpha(b),
{
    (65 <= b && b <= 90) || (97 <= b && b <= 122)
}

fn to_ascii_lowercase(b: u8) -> (res: u8)
    ensures
        res == lower(b),
{
    if 65 <= b && b <= 90 {
        b + 32
    } else {
        b
    }
}

/// `bs` padded with zero bytes, or cut, to three bytes.
pub open spec fn padded3(bs: Seq<u8>) -> Seq<u8> {
    Seq::new(3, |i: int| if i < bs.len() { bs[i] } else { 0u8 })
}

/// A keyboard layout code of at most three bytes.
#[derive(Clone, Copy, Debug, PartialEq, Eq)]
pub struct LayoutState {
    bytes: [u8; 3],
    len: u8,
}

impl View for LayoutState {
    /// `(bytes, len)`: the three stored bytes and how many of them count.
    type V = (Seq<u8>, u8);

    closed spec fn view(&self) -> (Seq<u8>, u8) {
        (self.bytes@, self.len)
    }
}

/// The layout shown when none is known: `??`.
pub open spec fn unknown_layout() -> (Seq<u8>, u8) {
    (seq![63u8, 63u8, 0u8], 2u8)
}

/// The layout for `code`: its first three UTF-8 bytes, or all of them.
pub open spec fn code_layout(code: Seq<char>) -> (Seq<u8>, u8) {
    let bs = encode_utf8(code);
    let n = if bs.len() < 3 { bs.len() } else { 3 };
    (padded3(bs.take(n as int)), n as u8)
}

/// `is_alpha` as a predicate value.
pub open spec fn alpha_pred() -> spec_fn(u8) -> bool {
    |b: u8| is_alpha(b)
}

/// `lower` as a function value.
pub open spec fn lower_fn() -> spec_fn(u8) -> u8 {
    |b: u8| lower(b)
}

/// At most the first three elements of `s`.
pub open spec fn first3(s: Seq<u8>) -> Seq<u8> {
    if s.len() <= 3 {
        s
    } else {
        s.take(3)
    }
}

/// The first three ASCII letters among the UTF-8 bytes of `name`, made small.
pub open spec fn name_letters(name: Seq<char>) -> Seq<u8> {
    first3(encode_utf8(name).filter(alpha_pred()).map_values(lower_fn()))
}

/// The layout for a layout name as the compositor reports it.
pub open spec fn name_layout(name: Seq<char>) -> (Seq<u8>, u8) {
    if occurs_in(name, "English (US)"@) {
        code_layout("us"@)
    } else if occurs_in(name, "Russian"@) {
        code_layout("ru"@)
    } else if occurs_in(name, "Ukrainian"@) {
        code_layout("ua"@)
    } else if name_letters(name).len() == 0 {
        unknown_layout()
    } else {
        (padded3(name_letters(name)), name_letters(name).len() as u8)
    }
}

/// How a layout is written: the characters of its counted bytes when they
/// are valid UTF-8, else `??`.
pub open spec fn layout_text(v: (Seq<u8>, u8)) -> Seq<char> {
    decoded_or(v.0.take(v.1 as int), "??"@)
}

impl LayoutState {
    /// A layout whose code is not known.
    pub fn unknown() -> (res: Self)
        ensures
            res@ == unknown_layout(),
    {
        let res = LayoutState { bytes: [63u8, 63u8, 0u8], len: 2 };
        assert(res.bytes@ =~= seq![63u8, 63u8, 0u8]);
        res
    }

    /// A layout made of raw bytes, of which the first `len` count.
    pub fn from_bytes(bytes: [u8; 3], len: u8) -> (res: Self)
        ensures
            res@ == (bytes@, len),
    {
        LayoutState { bytes, len }
    }

    /// Whether its count is at most the three bytes it stores.
    pub open spec fn wf(self) -> bool {
        self@.1 <= 3
    }

    /// Whether its count is at most the three bytes it stores.
    pub fn is_well_formed(&self) -> (res: bool)
        ensures
            res == self.wf(),
    {
        self.len <= 3
    }

    /// The layout for a layout name as the compositor reports it: `us`,
    /// `ru` or `ua` for the names that hold English (US), Russian or
    /// Ukrainian, else the first three ASCII letters of the name in lower
    /// case, else `??`.
    pub fn from_name(name: &str) -> (res: Self)
        ensures
            res@ == name_layout(name@),
            res.wf(),
    {
        if contains(name, "English (US)") {
            return Self::from_ascii("us");
        }
        if contains(name, "Russian") {
            return Self::from_ascii("ru");
        }
        if contains(name, "Ukrainian") {
            return Self::from_ascii("ua");
        }
        let bytes = name.as_bytes();
        let n = bytes.len();
        let ghost bs = encode_utf8(name@);
        let ghost p = alpha_pred();
        let ghost f = lower_fn();
        let mut acc: Vec<u8> = Vec::new();
        let mut i: usize = 0;
        assert(bs.take(0) =~= Seq::<u8>::empty());
        proof {
            reveal_with_fuel(Seq::filter, 1);
        }
        while i < n && acc.len() < 3
            invariant
                bytes@ == bs,
                bs == encode_utf8(name@),
                p == alpha_pred(),
                f == lower_fn(),
                n == bs.len(),
                i <= n,
                acc.len() <= 3,
                acc@ == bs.take(i as int).filter(p).map_values(f),
            decreases n - i,
        {
            let b = bytes[i];
            let ghost before = bs.take(i as int).filter(p);
            proof {
                assert(bs.take(i + 1) =~= bs.take(i as int).push(b));
                bs.take(i as int).lemma_filter_push(b, p);
            }
            if is_ascii_alphabetic(b) {
                acc.push(to_ascii_lowercase(b));
                assert(bs.take(i + 1).filter(p) == before.push(b));
                assert(before.push(b).map_values(f) =~= before.map_values(f).push(lower(b)));
            } else {
                assert(bs.take(i + 1).filter(p) == before);
            }
            i = i + 1;
        }
        proof {
            assert(bs =~= bs.take(i as int) + bs.skip(i as int));
            Seq::filter_distributes_over_add(bs.take(i as int), bs.skip(i as int), p);
            let whole = bs.filter(p).map_values(f);
            let rest = bs.skip(i as int).filter(p).map_values(f);
            assert(whole =~= acc@ + rest);
            if i == n {
                assert(bs.skip(i as int).filter(p).len() == 0) by {
                    assert(bs.skip(i as int) =~= Seq::<u8>::empty());
                    reveal_with_fuel(Seq::filter, 1);
                }
            }
            if i == n {
                assert(rest.len() == 0);
                assert(whole =~= acc@);
            } else {
                assert(acc@.len() == 3);
            }
            assert(first3(whole) =~= acc@);
        }
        if acc.len() == 0 {
            Self::unknown()
        } else {
            let b0 = acc[0];
            let b1 = if acc.len() > 1 { acc[1] } else { 0 };
            let b2 = if acc.len() > 2 { acc[2] } else { 0 };
            let res = LayoutState { bytes: [b0, b1, b2], len: acc.len() as u8 };
            assert(res.bytes@ =~= padded3(acc@));
            res
        }
    }

    /// The layout for a code: its first three UTF-8 bytes, or all of them.
    pub fn from_ascii(code: &str) -> (res: Self)
        ensures
            res@ == code_layout(code@),
            res.wf(),
    {
        let bytes = code.as_bytes();
        let n: usize = if bytes.len() < 3 {
            bytes.len()
        } else {
            3
        };
        let b0 = if n > 0 { bytes[0] } else { 0 };
        let b1 = if n > 1 { bytes[1] } else { 0 };
        let b2 = if n > 2 { bytes[2] } else { 0 };
        let res = LayoutState { bytes: [b0, b1, b2], len: n as u8 };
        assert(res.bytes@ =~= padded3(encode_utf8(code@).take(n as int)));
        res
    }

    /// Whether the two layouts hold the same bytes and count.
    pub fn same_as(&self, other: &Self) -> (res: bool)
        ensures
            res == (self@ == other@),
    {
        let res = self.len == other.len && self.bytes[0] == other.bytes[0] && self.bytes[1]
            == other.bytes[1] && self.bytes[2] == other.bytes[2];
        if res {
            assert(self.bytes@ =~= other.bytes@);
        } else {
            assert(self.len != other.len || self.bytes@[0] != other.bytes@[0] || self.bytes@[1]
                != other.bytes@[1] || self.bytes@[2] != other.bytes@[2]);
        }
        res
    }

    /// Replaces `self` with `next` and tells whether that changed it.
    pub fn replace_if_changed(&mut self, next: Self) -> (changed: bool)
        ensures
            final(self)@ == next@,
            changed == (old(self)@ != next@),
    {
        if self.same_as(&next) {
            false
        } else {
            *self = next;
            true
        }
    }

    fn push_to(self, out: &mut String)
        requires
            self.wf(),
        ensures
            final(out)@ == old(out)@ + layout_text(self@),
    {
        let counted = prefix_bytes(self.bytes.as_slice(), self.len as usize);
        push_decoded(out, counted.as_slice(), "??");
    }
}


/// A formatted clock reading of at most 22 bytes.
#[derive(Clone, Copy, Debug, PartialEq, Eq)]
pub struct ClockState {
    bytes: [u8; 22],
    len: u8,
}

impl View for ClockState {
    /// `(bytes, len)`: the 22 stored bytes and how many of them count.
    type V = (Seq<u8>, u8);

    closed spec fn view(&self) -> (Seq<u8>, u8) {
        (self.bytes@, self.len)
    }
}

/// How a clock reading is written: the characters of its counted bytes when
/// they are valid UTF-8, else nothing.
pub open spec fn clock_text(v: (Seq<u8>, u8)) -> Seq<char> {
    decoded_or(v.0.take(v.1 as int), Seq::<char>::empty())
}

impl ClockState {
    /// A clock reading made of raw bytes, of which the first `len` count.
    pub fn from_bytes(bytes: [u8; 22], len: u8) -> (res: Self)
        ensures
            res@ == (bytes@, len),
    {
        ClockState { bytes, len }
    }

    /// Whether its count is at most the 22 bytes it stores.
    pub open spec fn wf(self) -> bool {
        self@.1 <= 22
    }

    /// Whether its count is at most the 22 bytes it stores.
    pub fn is_well_formed(&self) -> (res: bool)
        ensures
            res == self.wf(),
    {
        self.len <= 22
    }

    /// Whether the two readings hold the same bytes and count.
    pub fn same_as(&self, other: &Self) -> (res: bool)
        ensures
            res == (self@ == other@),
    {
        if self.len != other.len {
            return false;
        }
        let mut i: usize = 0;
        while i < 22
            invariant
                i <= 22,
                forall|j: int| 0 <= j < i ==> self.bytes@[j] == other.bytes@[j],
            decreases 22 - i,
        {
            if self.bytes[i] != other.bytes[i] {
                return false;
            }
            i = i + 1;
        }
        assert(self.bytes@ =~= other.bytes@);
        true
    }

    /// Replaces `self` with `next` and tells whether that changed it.
    pub fn replace_if_changed(&mut self, next: Self) -> (changed: bool)
        ensures
            final(self)@ == next@,
            changed == (old(self)@ != next@),
    {
        if self.same_as(&next) {
            false
        } else {
            *self = next;
            true
        }
    }

    fn push_to(self, out: &mut String)
        requires
            self.wf(),
        ensures
            final(out)@ == old(out)@ + clock_text(self@),
    {
        let counted = prefix_bytes(self.bytes.as_slice(), self.len as usize);
        push_decoded(out, counted.as_slice(), "");
        proof {
            reveal_strlit("");
        }
    }
}

/// The status line: volume, layout and clock, separated by single spaces.
pub open spec fn status_line(
    volume: (u16, bool, bool),
    layout: (Seq<u8>, u8),
    time: (Seq<u8>, u8),
) -> Seq<char> {
    volume_text(volume) + seq![' '] + layout_text(layout) + seq![' '] + clock_text(time)
}

/// Writes the status line into `out`, replacing what it held, and returns a
/// copy of it.
pub fn render(out: &mut String, volume: VolumeState, layout: LayoutState, time: ClockState) -> (res:
    String)
    requires
        layout.wf(),
        time.wf(),
    ensures
        res@ == status_line(volume@, layout@, time@),
        final(out)@ == res@,
{
    *out = String::new();
    volume.push_to(out);
    push_char(out, ' ');
    layout.push_to(out);
    push_char(out, ' ');
    time.push_to(out);
    proof {
        assert(out@ =~= status_line(volume@, layout@, time@));
    }
    out.clone()
}


/// ASCII bytes are valid UTF-8 and decode to one character each.
pub proof fn lemma_ascii_decode(bs: Seq<u8>)
    requires
        forall|i: int| 0 <= i < bs.len() ==> #[trigger] bs[i] < 128,
    ensures
        valid_utf8(bs),
        decode_utf8(bs) == Seq::new(bs.len(), |i: int| bs[i] as char),
{
    let cs = Seq::new(bs.len(), |i: int| bs[i] as char);
    assert forall|i: int| 0 <= i < cs.len() implies '\0' <= #[trigger] cs[i] <= '\u{7f}' by {
        assert((bs[i] as char) as u32 == bs[i] as u32);
    }
    assert(vstd::utf8::is_ascii_chars(cs));
    vstd::utf8::is_ascii_chars_encode_utf8(cs);
    assert forall|i: int| 0 <= i < cs.len() implies #[trigger] encode_utf8(cs)[i] == bs[i] by {
        assert((bs[i] as char) as u8 == bs[i]);
    }
    assert(encode_utf8(cs) =~= bs);
}

/// The layout read from any name is shown as one to three characters, each
/// a small ASCII letter or `?`.
pub proof fn lemma_name_layout_is_code(name: Seq<char>)
    ensures
        1 <= name_layout(name).1 <= 3,
        layout_text(name_layout(name)).len() == name_layout(name).1,
        forall|i: int|
            0 <= i < layout_text(name_layout(name)).len() ==> {
                let c = #[trigger] layout_text(name_layout(name))[i];
                ('a' <= c && c <= 'z') || c == '?'
            },
{
    let v = name_layout(name);
    let counted = v.0.take(v.1 as int);
    if occurs_in(name, "English (US)"@) || occurs_in(name, "Russian"@) || occurs_in(name, "Ukrainian"@) {
        let code = if occurs_in(name, "English (US)"@) {
            "us"@
        } else if occurs_in(name, "Russian"@) {
            "ru"@
        } else {
            "ua"@
        };
        reveal_strlit("us");
        reveal_strlit("ru");
        reveal_strlit("ua");
        assert(code.len() == 2);
        assert(vstd::utf8::is_ascii_chars(code));
        vstd::utf8::is_ascii_chars_encode_utf8(code);
        let bs = encode_utf8(code);
        assert(v == code_layout(code));
        assert(counted =~= bs);
        assert forall|i: int| 0 <= i < counted.len() implies #[trigger] counted[i] < 128 by {
            assert(counted[i] == code[i] as u8);
        }
        lemma_ascii_decode(counted);
        assert forall|i: int| 0 <= i < 2 implies 'a' <= #[trigger] code[i] && code[i] <= 'z' by {}
        assert forall|i: int| 0 <= i < 2 implies (counted[i] as char) == #[trigger] code[i] by {
            assert((code[i] as u8) as char == code[i]);
        }
    } else if name_letters(name).len() == 0 {
        assert(counted =~= seq![63u8, 63u8]);
        lemma_ascii_decode(counted);
    } else {
        let all = encode_utf8(name).filter(alpha_pred());
        let lowered = all.map_values(lower_fn());
        let ls = name_letters(name);
        assert(counted =~= ls);
        assert forall|i: int| 0 <= i < ls.len() implies 97 <= #[trigger] ls[i] <= 122 by {
            encode_utf8(name).lemma_filter_pred(alpha_pred(), i);
            assert(ls[i] == lowered[i]);
            assert(lowered[i] == lower(all[i]));
        }
        lemma_ascii_decode(counted);
        assert forall|i: int| 0 <= i < ls.len() implies 'a' <= (#[trigger] ls[i] as char) && (
        ls[i] as char) <= 'z' by {
            assert((ls[i] as char) as u32 == ls[i] as u32);
        }
    }
}


/// Only a name holding `English (US)` gets the code of `us` from the first
/// test; a name that holds none of `English (US)`, `Russian` and `Ukrainian`
/// gets as its code the first three ASCII letters of its UTF-8 bytes, capitals
/// made small, padded with zero bytes, and `??` when it has no ASCII letter.
pub proof fn lemma_unmarked_name_takes_letters(name: Seq<char>)
    ensures
        occurs_in(name, "English (US)"@) ==> name_layout(name) == code_layout("us"@),
        !occurs_in(name, "English (US)"@) && !occurs_in(name, "Russian"@) && !occurs_in(
            name,
            "Ukrainian"@,
        ) ==> {
            let letters = encode_utf8(name).filter(
                |b: u8| (65 <= b && b <= 90) || (97 <= b && b <= 122),
            );
            let v = name_layout(name);
            &&& letters.len() == 0 ==> v == (seq![63u8, 63u8, 0u8], 2u8)
            &&& letters.len() > 0 ==> {
                &&& v.1 == (if letters.len() < 3 { letters.len() } else { 3 })
                &&& v.0.len() == 3
                &&& forall|j: int|
                    0 <= j < v.1 ==> #[trigger] v.0[j] == (if 65 <= letters[j] && letters[j] <= 90 {
                        (letters[j] + 32) as u8
                    } else {
                        letters[j]
                    })
                &&& forall|j: int| v.1 <= j < 3 ==> #[trigger] v.0[j] == 0
            }
        },
{
    let p = |b: u8| (65 <= b && b <= 90) || (97 <= b && b <= 122);
    assert(p =~= alpha_pred());
    let letters = encode_utf8(name).filter(alpha_pred());
    let lowered = letters.map_values(lower_fn());
    assert(lowered.len() == letters.len());
}


/// The three codes of the known languages are the bytes of `us`, `ru` and
/// `ua`, and a name holding one of the language names gets the code of the
/// first of `English (US)`, `Russian`, `Ukrainian` that it holds.
pub proof fn lemma_marked_names(name: Seq<char>)
    ensures
        code_layout("us"@) == (seq![117u8, 115u8, 0u8], 2u8),
        code_layout("ru"@) == (seq![114u8, 117u8, 0u8], 2u8),
        code_layout("ua"@) == (seq![117u8, 97u8, 0u8], 2u8),
        occurs_in(name, "English (US)"@) ==> name_layout(name) == code_layout("us"@),
        !occurs_in(name, "English (US)"@) && occurs_in(name, "Russian"@) ==> name_layout(name)
            == code_layout("ru"@),
        !occurs_in(name, "English (US)"@) && !occurs_in(name, "Russian"@) && occurs_in(
            name,
            "Ukrainian"@,
        ) ==> name_layout(name) == code_layout("ua"@),
{
    reveal_strlit("us");
    reveal_strlit("ru");
    reveal_strlit("ua");
    assert(vstd::utf8::is_ascii_chars("us"@));
    assert(vstd::utf8::is_ascii_chars("ru"@));
    assert(vstd::utf8::is_ascii_chars("ua"@));
    vstd::utf8::is_ascii_chars_encode_utf8("us"@);
    vstd::utf8::is_ascii_chars_encode_utf8("ru"@);
    vstd::utf8::is_ascii_chars_encode_utf8("ua"@);
    assert(encode_utf8("us"@) =~= seq![117u8, 115u8]);
    assert(encode_utf8("ru"@) =~= seq![114u8, 117u8]);
    assert(encode_utf8("ua"@) =~= seq![117u8, 97u8]);
    assert(padded3(seq![117u8, 115u8]) =~= seq![117u8, 115u8, 0u8]);
    assert(padded3(seq![114u8, 117u8]) =~= seq![114u8, 117u8, 0u8]);
    assert(padded3(seq![117u8, 97u8]) =~= seq![117u8, 97u8, 0u8]);
    assert(seq![117u8, 115u8].take(2) =~= seq![117u8, 115u8]);
    assert(seq![114u8, 117u8].take(2) =~= seq![114u8, 117u8]);
    assert(seq![117u8, 97u8].take(2) =~= seq![117u8, 97u8]);
}

/// A known, unmuted volume is written as its percentage in decimal, which
/// reads back as that percentage, followed by `%`; a muted one as `0%`; an
/// unknown one as `??%`.
pub proof fn lemma_volume_text(v: (u16, bool, bool))
    ensures
        v.1 && !v.2 ==> volume_text(v).last() == '%' && crate::text::decimal_u32(
            volume_text(v).drop_last(),
        ) == Some(v.0 as u32),
        v.1 && v.2 ==> volume_text(v) == seq!['0', '%'],
        !v.1 ==> volume_text(v) == seq!['?', '?', '%'],
{
    crate::text::lemma_decimal_parses_back(v.0 as u32);
    let t = volume_text(v);
    if v.1 {
        let n: nat = if v.2 { 0 } else { v.0 as nat };
        assert(t.drop_last() =~= decimal(n));
        if v.2 {
            assert(decimal(0) == seq![crate::text::digit_char(0)]);
            assert(crate::text::digit_char(0) == '0');
            assert(t =~= seq!['0', '%']);
        }
    } else {
        reveal_strlit("??%");
    }
}
} // verus!
