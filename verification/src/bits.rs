//! The bit sequence that every test reads.
use std::slice::Iter;
use vstd::prelude::*;
use vstd::std_specs::iter::IteratorSpec;

verus! {

/// Number of `true` entries of a bit sequence.
pub open spec fn count_ones(s: Seq<bool>) -> nat
    decreases s.len(),
{
    if s.len() == 0 {
        0
    } else {
        count_ones(s.drop_last()) + if s.last() { 1nat } else { 0nat }
    }
}

/// The count of ones never exceeds the length.
pub proof fn lemma_count_ones_bounded(s: Seq<bool>)
    ensures
        count_ones(s) <= s.len(),
    decreases s.len(),
{
    if s.len() > 0 {
        lemma_count_ones_bounded(s.drop_last());
    }
}

/// Bit `j` (0 = most significant) of a byte.
pub open spec fn byte_bit(b: u8, j: int) -> bool {
    ((b >> ((7 - j) as u8)) & 1u8) == 1u8
}

/// The bits of a byte string, eight per byte, most significant bit first.
pub open spec fn bytes_to_bits(bytes: Seq<u8>) -> Seq<bool> {
    Seq::new(8 * bytes.len(), |i: int| byte_bit(bytes[i / 8], i % 8))
}

/// Unicode white space, as `char::is_whitespace` decides it.
pub open spec fn is_whitespace(c: char) -> bool {
    ||| c == '\t' || c == '\n' || c == '\u{0B}' || c == '\u{0C}' || c == '\r' || c == ' '
    ||| c == '\u{85}' || c == '\u{A0}' || c == '\u{1680}'
    ||| c == '\u{2000}' || c == '\u{2001}' || c == '\u{2002}' || c == '\u{2003}'
    ||| c == '\u{2004}' || c == '\u{2005}' || c == '\u{2006}' || c == '\u{2007}'
    ||| c == '\u{2008}' || c == '\u{2009}' || c == '\u{200A}'
    ||| c == '\u{2028}' || c == '\u{2029}' || c == '\u{202F}' || c == '\u{205F}'
    ||| c == '\u{3000}'
}

/// The text without its leading white space.
pub open spec fn trim_start(s: Seq<char>) -> Seq<char>
    decreases s.len(),
{
    if s.len() > 0 && is_whitespace(s[0]) {
        trim_start(s.drop_first())
    } else {
        s
    }
}

/// The text without its trailing white space.
pub open spec fn trim_end(s: Seq<char>) -> Seq<char>
    decreases s.len(),
{
    if s.len() > 0 && is_whitespace(s.last()) {
        trim_end(s.drop_last())
    } else {
        s
    }
}

/// The text without white space at either end.
pub open spec fn trim(s: Seq<char>) -> Seq<char> {
    trim_end(trim_start(s))
}

/// The lines of a text: the pieces between the `'\n'` characters, in order.
pub open spec fn split_lines(s: Seq<char>) -> Seq<Seq<char>>
    decreases s.len(),
{
    if s.len() == 0 {
        seq![Seq::<char>::empty()]
    } else {
        let prev = split_lines(s.drop_last());
        if s.last() == '\n' {
            prev.push(Seq::<char>::empty())
        } else {
            prev.drop_last().push(prev.last().push(s.last()))
        }
    }
}

/// `'0'` or `'1'`.
pub open spec fn is_binary_digit(c: char) -> bool {
    c == '0' || c == '1'
}

/// After trimming, the line holds binary digits only.
pub open spec fn line_is_binary(l: Seq<char>) -> bool {
    forall|i: int| 0 <= i < trim(l).len() ==> is_binary_digit(#[trigger] trim(l)[i])
}

/// Every line of the text, once trimmed, holds binary digits only.
pub open spec fn text_is_binary(s: Seq<char>) -> bool {
    forall|i: int| 0 <= i < split_lines(s).len() ==> line_is_binary(#[trigger] split_lines(s)[i])
}

/// The bits that one line stands for.
pub open spec fn line_bits(l: Seq<char>) -> Seq<bool> {
    trim(l).map_values(|c: char| c == '1')
}

/// The bits that a text stands for: those of its lines, one after the other.
pub open spec fn text_to_bits(s: Seq<char>) -> Seq<bool> {
    split_lines(s).map_values(|l: Seq<char>| line_bits(l)).flatten()
}

proof fn lemma_split_lines_nonempty(s: Seq<char>)
    ensures
        split_lines(s).len() >= 1,
    decreases s.len(),
{
    if s.len() > 0 {
        lemma_split_lines_nonempty(s.drop_last());
    }
}

proof fn lemma_trim_start_at(s: Seq<char>, a: int)
    requires
        0 <= a <= s.len(),
        forall|i: int| 0 <= i < a ==> is_whitespace(#[trigger] s[i]),
        a == s.len() || !is_whitespace(s[a]),
    ensures
        trim_start(s) == s.subrange(a, s.len() as int),
    decreases a,
{
    if a == 0 {
        assert(s.subrange(0, s.len() as int) =~= s);
    } else {
        let t = s.drop_first();
        assert forall|i: int| 0 <= i < a - 1 implies is_whitespace(#[trigger] t[i]) by {
            assert(t[i] == s[i + 1]);
        }
        lemma_trim_start_at(t, a - 1);
        assert(t.subrange(a - 1, t.len() as int) =~= s.subrange(a, s.len() as int));
    }
}

proof fn lemma_trim_end_at(s: Seq<char>, b: int)
    requires
        0 <= b <= s.len(),
        forall|i: int| b <= i < s.len() ==> is_whitespace(#[trigger] s[i]),
        b == 0 || !is_whitespace(s[b - 1]),
    ensures
        trim_end(s) == s.subrange(0, b),
    decreases s.len() - b,
{
    if b == s.len() {
        assert(s.subrange(0, b) =~= s);
    } else {
        let t = s.drop_last();
        lemma_trim_end_at(t, b);
        assert(t.subrange(0, b) =~= s.subrange(0, b));
    }
}

proof fn lemma_split_lines_extend(s: Seq<char>, t: Seq<char>)
    requires
        s.len() <= t.len(),
        s == t.take(s.len() as int),
    ensures
        split_lines(t).len() >= split_lines(s).len(),
        forall|i: int|
            0 <= i < split_lines(s).len() - 1 ==> #[trigger] split_lines(t)[i] == split_lines(s)[i],
        t.len() > s.len() && t[s.len() as int] == '\n' ==> {
            &&& split_lines(t).len() > split_lines(s).len()
            &&& split_lines(t)[split_lines(s).len() - 1] == split_lines(s).last()
        },
    decreases t.len() - s.len(),
{
    lemma_split_lines_nonempty(s);
    if t.len() == s.len() {
        assert(t =~= s);
    } else {
        let u = t.drop_last();
        assert(s == u.take(s.len() as int));
        lemma_split_lines_extend(s, u);
        lemma_split_lines_nonempty(u);
        if t.len() == s.len() + 1 {
            assert(u =~= s);
        } else {
            assert(u[s.len() as int] == t[s.len() as int]);
        }
    }
}

/// The text that writes each bit as `'0'` or `'1'`, on one line.
pub open spec fn bits_to_text(s: Seq<bool>) -> Seq<char> {
    s.map_values(|b: bool| if b { '1' } else { '0' })
}

proof fn lemma_split_single_line(t: Seq<char>)
    requires
        forall|i: int| 0 <= i < t.len() ==> #[trigger] t[i] != '\n',
    ensures
        split_lines(t) == seq![t],
    decreases t.len(),
{
    if t.len() > 0 {
        lemma_split_single_line(t.drop_last());
        assert(t.drop_last().push(t.last()) =~= t);
    } else {
        assert(t =~= Seq::<char>::empty());
    }
}

/// Reading back the `'0'`/`'1'` text of a bit sequence gives the same bits.
pub proof fn lemma_text_round_trip(s: Seq<bool>)
    ensures
        text_is_binary(bits_to_text(s)),
        text_to_bits(bits_to_text(s)) == s,
{
    broadcast use Seq::lemma_flatten_singleton;

    let t = bits_to_text(s);
    assert forall|i: int| 0 <= i < t.len() implies #[trigger] t[i] != '\n' by {}
    lemma_split_single_line(t);
    if t.len() > 0 {
        assert(!is_whitespace(t[0]));
        assert(!is_whitespace(t.last()));
    }
    assert(trim_start(t) == t);
    assert(trim_end(t) == t);
    assert(trim(t) == t);
    assert(line_bits(t) =~= s);
    assert(split_lines(t).map_values(|l: Seq<char>| line_bits(l)) =~= seq![s]);
    assert(seq![s].flatten() == s) by {
        seq![s].lemma_flatten_one_element();
    }
}

/// The bytes written as text, eight `'0'`/`'1'` characters per byte, most
/// significant bit first.
pub open spec fn bytes_to_text(bytes: Seq<u8>) -> Seq<char> {
    Seq::new(8 * bytes.len(), |i: int| if byte_bit(bytes[i / 8], i % 8) { '1' } else { '0' })
}

/// Reading the binary text of some bytes gives the bits that reading the
/// bytes themselves gives.
pub proof fn lemma_binary_text_agrees(bytes: Seq<u8>)
    ensures
        text_is_binary(bytes_to_text(bytes)),
        text_to_bits(bytes_to_text(bytes)) == bytes_to_bits(bytes),
{
    assert(bytes_to_text(bytes) =~= bits_to_text(bytes_to_bits(bytes)));
    lemma_text_round_trip(bytes_to_bits(bytes));
}

fn char_is_whitespace(c: char) -> (b: bool)
    ensures
        b == is_whitespace(c),
{
    c == '\t' || c == '\n' || c == '\u{0B}' || c == '\u{0C}' || c == '\r' || c == ' '
        || c == '\u{85}' || c == '\u{A0}' || c == '\u{1680}' || c == '\u{2000}'
        || c == '\u{2001}' || c == '\u{2002}' || c == '\u{2003}' || c == '\u{2004}'
        || c == '\u{2005}' || c == '\u{2006}' || c == '\u{2007}' || c == '\u{2008}'
        || c == '\u{2009}' || c == '\u{200A}' || c == '\u{2028}' || c == '\u{2029}'
        || c == '\u{202F}' || c == '\u{205F}' || c == '\u{3000}'
}

/// Appends the bits of one line; refuses a line that is not binary once trimmed.
fn push_line_bits(line: &Vec<char>, bits: &mut Vec<bool>, ones: &mut usize) -> (ok: bool)
    requires
        *old(ones) == count_ones(old(bits)@),
    ensures
        ok == line_is_binary(line@),
        ok ==> final(bits)@ == old(bits)@ + line_bits(line@),
        *final(ones) == count_ones(final(bits)@),
{
    let n = line.len();
    let mut a: usize = 0;
    while a < n && char_is_whitespace(line[a])
        invariant
            a <= n == line@.len(),
            forall|i: int| 0 <= i < a ==> is_whitespace(#[trigger] line@[i]),
        decreases n - a,
    {
        a = a + 1;
    }
    let mut b: usize = n;
    while b > a && char_is_whitespace(line[b - 1])
        invariant
            a <= b <= n == line@.len(),
            forall|i: int| b <= i < n ==> is_whitespace(#[trigger] line@[i]),
        decreases b - a,
    {
        b = b - 1;
    }
    proof {
        lemma_trim_start_at(line@, a as int);
        let t = line@.subrange(a as int, n as int);
        assert forall|i: int| b - a <= i < t.len() implies is_whitespace(#[trigger] t[i]) by {
            assert(t[i] == line@[i + a]);
        }
        if b > a {
            assert(t[b - a - 1] == line@[b - 1]);
        }
        lemma_trim_end_at(t, b - a);
        assert(trim(line@) =~= line@.subrange(a as int, b as int));
    }
    let ghost start = bits@;
    let mut k: usize = a;
    while k < b
        invariant
            a <= k <= b <= n == line@.len(),
            trim(line@) == line@.subrange(a as int, b as int),
            forall|i: int| a <= i < k ==> is_binary_digit(#[trigger] line@[i]),
            bits@ == start + line@.subrange(a as int, k as int).map_values(|c: char| c == '1'),
            *ones == count_ones(bits@),
        decreases b - k,
    {
        let c = line[k];
        if c != '0' && c != '1' {
            proof {
                assert(trim(line@)[k - a] == c);
            }
            return false;
        }
        let ghost prev = bits@;
        bits.push(c == '1');
        // The length is a `usize`, so the count of ones below it cannot overflow.
        let _total = bits.len();
        proof {
            lemma_count_ones_bounded(prev);
            assert(bits@.drop_last() == prev);
            assert(line@.subrange(a as int, k + 1) == line@.subrange(a as int, k as int).push(c));
        }
        if c == '1' {
            *ones = *ones + 1;
        }
        k = k + 1;
    }
    proof {
        assert forall|i: int| 0 <= i < trim(line@).len() implies is_binary_digit(
            #[trigger] trim(line@)[i],
        ) by {
            assert(trim(line@)[i] == line@[i + a]);
        }
    }
    true
}

/// A sequence of bits together with the number of ones it holds.
pub struct BitsData {
    ones: usize,
    data: Vec<bool>,
}

impl View for BitsData {
    type V = Seq<bool>;

    closed spec fn view(&self) -> Seq<bool> {
        self.data@
    }
}

impl BitsData {
    #[verifier::type_invariant]
    closed spec fn wf(self) -> bool {
        self.ones == count_ones(self.data@)
    }

    /// Transforms a byte vector into bits, eight per byte, most significant first.
    pub fn from_binary(data: Vec<u8>) -> (res: Self)
        requires
            8 * data@.len() <= usize::MAX,
        ensures
            res@ == bytes_to_bits(data@),
    {
        let mut bits: Vec<bool> = Vec::new();
        let mut ones: usize = 0;
        let mut i: usize = 0;
        while i < data.len()
            invariant
                i <= data@.len(),
                8 * data@.len() <= usize::MAX,
                bits@.len() == 8 * i,
                ones == count_ones(bits@),
                forall|k: int| 0 <= k < 8 * i ==> bits@[k] == byte_bit(data@[k / 8], k % 8),
            decreases data@.len() - i,
        {
            let byte = data[i];
            let ghost before = bits@;
            let mut n: u8 = 8;
            while n > 0
                invariant
                    n <= 8,
                    i < data@.len(),
                    byte == data@[i as int],
                    8 * data@.len() <= usize::MAX,
                    bits@.len() == 8 * i + (8 - n),
                    ones == count_ones(bits@),
                    bits@.subrange(0, 8 * i) == before,
                    forall|k: int| 0 <= k < 8 * i ==> bits@[k] == byte_bit(data@[k / 8], k % 8),
                    forall|j: int| 0 <= j < 8 - n ==> bits@[8 * i + j] == byte_bit(byte, j),
                decreases n,
            {
                n = n - 1;
                let b = ((byte >> n) & 1u8) == 1u8;
                let ghost prev = bits@;
                bits.push(b);
                assert(bits@.drop_last() == prev);
                proof {
                    lemma_count_ones_bounded(prev);
                }
                if b {
                    ones = ones + 1;
                }
                assert(bits@.subrange(0, 8 * i) == prev.subrange(0, 8 * i));
            }
            assert forall|k: int| 0 <= k < 8 * (i + 1) implies bits@[k] == byte_bit(
                data@[k / 8],
                k % 8,
            ) by {
                if k >= 8 * i {
                    assert(k / 8 == i as int && k % 8 == k - 8 * i) by (nonlinear_arith)
                        requires
                            8 * i <= k < 8 * (i + 1),
                    ;
                }
            }
            i = i + 1;
        }
        BitsData { ones, data: bits }
    }

    /// Reads a text of `'0'` and `'1'` characters, line by line, each line
    /// trimmed of white space at both ends; `None` where a trimmed line holds
    /// anything else.
    pub fn try_from_text(data: &str) -> (res: Option<Self>)
        ensures
            res is Some <==> text_is_binary(data@),
            res matches Some(b) ==> b@ == text_to_bits(data@),
    {
        broadcast use vstd::string::axiom_spec_iter;
        broadcast use Seq::lemma_flatten_push;

        let mut bits: Vec<bool> = Vec::new();
        let mut ones: usize = 0;
        let mut line: Vec<char> = Vec::new();
        let ghost mut done: Seq<Seq<char>> = Seq::empty();
        assert(data@.take(0) =~= Seq::<char>::empty());
        for c in it: data.chars()
            invariant
                it.seq() == data@,
                split_lines(data@.take(it.index())) == done.push(line@),
                forall|i: int| 0 <= i < done.len() ==> line_is_binary(#[trigger] done[i]),
                bits@ == done.map_values(|l: Seq<char>| line_bits(l)).flatten(),
                ones == count_ones(bits@),
        {
            let ghost idx = it.index();
            let ghost pre = data@.take(idx);
            assert(data@.take(idx + 1) =~= pre.push(c));
            assert(data@.take(idx + 1).drop_last() =~= pre);
            if c == '\n' {
                let ok = push_line_bits(&line, &mut bits, &mut ones);
                if !ok {
                    proof {
                        lemma_split_lines_extend(pre, data@);
                        assert(split_lines(data@)[done.len() as int] == line@);
                    }
                    return None;
                }
                proof {
                    assert(done.push(line@).map_values(|l: Seq<char>| line_bits(l)) =~= done.map_values(
                        |l: Seq<char>| line_bits(l),
                    ).push(line_bits(line@)));
                    done.map_values(|l: Seq<char>| line_bits(l)).lemma_flatten_push(line_bits(line@));
                    done = done.push(line@);
                }
                line = Vec::new();
            } else {
                line.push(c);
            }
        }
        assert(data@.take(data@.len() as int) =~= data@);
        let ok = push_line_bits(&line, &mut bits, &mut ones);
        if !ok {
            proof {
                assert(split_lines(data@)[done.len() as int] == line@);
            }
            return None;
        }
        proof {
            assert(done.map_values(|l: Seq<char>| line_bits(l)).push(line_bits(line@)).flatten()
                =~= done.map_values(|l: Seq<char>| line_bits(l)).flatten() + line_bits(line@));
            assert(done.push(line@).map_values(|l: Seq<char>| line_bits(l)) =~= done.map_values(
                |l: Seq<char>| line_bits(l),
            ).push(line_bits(line@)));
        }
        Some(BitsData { ones, data: bits })
    }

    /// Reads a text of `'0'` and `'1'` characters, as `try_from_text` does.
    pub fn from_text(data: String) -> (res: Self)
        requires
            text_is_binary(data@),
        ensures
            res@ == text_to_bits(data@),
    {
        match Self::try_from_text(data.as_str()) {
            Some(b) => b,
            None => vstd::pervasive::unreached(),
        }
    }

    /// Number of bits in storage.
    pub fn len(&self) -> (n: usize)
        ensures
            n == self@.len(),
    {
        self.data.len()
    }

    /// Whether the storage of bits is empty.
    pub fn is_empty(&self) -> (b: bool)
        ensures
            b == (self@.len() == 0),
    {
        self.data.len() == 0
    }

    /// Number of ones in the sequence.
    pub fn ones(&self) -> (n: usize)
        ensures
            n == count_ones(self@),
    {
        proof {
            use_type_invariant(self);
        }
        self.ones
    }

    /// The bit at position `i`.
    pub fn index(&self, i: usize) -> (b: bool)
        requires
            i < self@.len(),
        ensures
            b == self@[i as int],
    {
        self.data[i]
    }

    /// An iterator over the bits, first to last.
    pub fn iter(&self) -> (it: Iter<'_, bool>)
        ensures
            it.remaining().unref() == self@,
    {
        proof {
            broadcast use vstd::std_specs::slice::axiom_spec_slice_iter;
        }
        self.data.as_slice().iter()
    }

    /// The bits as a slice.
    pub fn as_slice(&self) -> (s: &[bool])
        ensures
            s@ == self@,
    {
        self.data.as_slice()
    }
}

} // verus!
