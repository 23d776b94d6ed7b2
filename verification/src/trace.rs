use vstd::prelude::*;
use vstd::arithmetic::div_mod::{
    lemma_fundamental_div_mod,
    lemma_mod_division_less_than_divisor,
};
use vstd::arithmetic::mul::lemma_mul_inequality;
use vstd::string::StringSliceAdditionalSpecFns;
use crate::error::SimulationError;

verus! {

/// Horizontal whitespace inside a trace line: space, tab, or the carriage
/// return left by a CRLF line ending.
pub open spec fn is_line_space(b: u8) -> bool {
    b == 32 || b == 9 || b == 13
}

/// The sixteen ASCII hexadecimal digits, both cases.
pub open spec fn is_hex_digit(b: u8) -> bool {
    (48 <= b && b <= 57) || (97 <= b && b <= 102) || (65 <= b && b <= 70)
}

/// The numeric value of one hexadecimal digit.
pub open spec fn hex_digit_value(b: u8) -> nat {
    if 48 <= b && b <= 57 {
        (b - 48) as nat
    } else if 97 <= b && b <= 102 {
        (b - 87) as nat
    } else if 65 <= b && b <= 70 {
        (b - 55) as nat
    } else {
        0
    }
}

/// The value of a big-endian string of hexadecimal digits.
pub open spec fn hex_value(digits: Seq<u8>) -> nat
    decreases digits.len(),
{
    if digits.len() == 0 {
        0
    } else {
        16 * hex_value(digits.drop_last()) + hex_digit_value(digits.last())
    }
}

/// Appending digits never shrinks the value.
proof fn lemma_hex_value_prefix_le(digits: Seq<u8>, i: int)
    requires
        0 <= i <= digits.len(),
    ensures
        hex_value(digits.subrange(0, i)) <= hex_value(digits),
    decreases digits.len() - i,
{
    if i == digits.len() {
        assert(digits.subrange(0, i) =~= digits);
    } else {
        assert(digits.subrange(0, i + 1).drop_last() =~= digits.subrange(0, i));
        assert(digits.subrange(0, i + 1).last() == digits[i]);
        lemma_hex_value_prefix_le(digits, i + 1);
    }
}

/// The ASCII decimal digits.
pub open spec fn is_dec_digit(b: u8) -> bool {
    48 <= b && b <= 57
}

/// The value of a big-endian string of decimal digits; an empty string
/// counts as zero.
pub open spec fn dec_value(digits: Seq<u8>) -> nat
    decreases digits.len(),
{
    if digits.len() == 0 {
        0
    } else {
        10 * dec_value(digits.drop_last()) + (digits.last() - 48) as nat
    }
}

/// Appending digits never shrinks the value.
proof fn lemma_dec_value_prefix_le(digits: Seq<u8>, i: int)
    requires
        0 <= i <= digits.len(),
    ensures
        dec_value(digits.subrange(0, i)) <= dec_value(digits),
    decreases digits.len() - i,
{
    if i == digits.len() {
        assert(digits.subrange(0, i) =~= digits);
    } else {
        assert(digits.subrange(0, i + 1).drop_last() =~= digits.subrange(0, i));
        assert(digits.subrange(0, i + 1).last() == digits[i]);
        lemma_dec_value_prefix_le(digits, i + 1);
    }
}

/// Index of the first newline byte, or the length when there is none.
pub open spec fn newline_pos(s: Seq<u8>) -> int
    decreases s.len(),
{
    if s.len() == 0 {
        0
    } else if s[0] == 10 {
        0
    } else {
        1 + newline_pos(s.drop_first())
    }
}

proof fn lemma_newline_pos(s: Seq<u8>)
    ensures
        0 <= newline_pos(s) <= s.len(),
        newline_pos(s) < s.len() ==> s[newline_pos(s)] == 10,
        forall|i: int| 0 <= i < newline_pos(s) ==> s[i] != 10,
    decreases s.len(),
{
    if s.len() > 0 && s[0] != 10 {
        lemma_newline_pos(s.drop_first());
        assert(forall|i: int| 1 <= i < s.len() ==> s[i] == s.drop_first()[i - 1]);
    }
}

/// The lines of a byte string, split at newline bytes. A trailing newline
/// closes the last line rather than opening an empty one, matching how text
/// files end.
pub open spec fn split_lines(s: Seq<u8>) -> Seq<Seq<u8>>
    decreases s.len(),
{
    if s.len() == 0 {
        Seq::empty()
    } else {
        let p = newline_pos(s);
        if 0 <= p < s.len() {
            seq![s.subrange(0, p)] + split_lines(s.subrange(p + 1, s.len() as int))
        } else {
            seq![s]
        }
    }
}

/// A line with its leading whitespace removed.
pub open spec fn skip_spaces(l: Seq<u8>) -> Seq<u8>
    decreases l.len(),
{
    if l.len() > 0 && is_line_space(l[0]) {
        skip_spaces(l.drop_first())
    } else {
        l
    }
}

proof fn lemma_skip_spaces_range(l: Seq<u8>, a: int)
    requires
        0 <= a <= l.len(),
        forall|i: int| 0 <= i < a ==> is_line_space(l[i]),
        a == l.len() || !is_line_space(l[a]),
    ensures
        skip_spaces(l) == l.subrange(a, l.len() as int),
    decreases a,
{
    if a == 0 {
        assert(l.subrange(0, l.len() as int) =~= l);
    } else {
        assert(forall|i: int| 0 <= i < l.drop_first().len() ==> l.drop_first()[i] == l[i + 1]);
        lemma_skip_spaces_range(l.drop_first(), a - 1);
        assert(l.drop_first().subrange(a - 1, l.drop_first().len() as int) =~= l.subrange(
            a,
            l.len() as int,
        ));
    }
}

/// The leading run of non-whitespace bytes.
pub open spec fn head_token(l: Seq<u8>) -> Seq<u8>
    decreases l.len(),
{
    if l.len() > 0 && !is_line_space(l[0]) {
        seq![l[0]] + head_token(l.drop_first())
    } else {
        Seq::empty()
    }
}

proof fn lemma_head_token_range(l: Seq<u8>, b: int)
    requires
        0 <= b <= l.len(),
        forall|i: int| 0 <= i < b ==> !is_line_space(l[i]),
        b == l.len() || is_line_space(l[b]),
    ensures
        head_token(l) == l.subrange(0, b),
    decreases b,
{
    if b == 0 {
        assert(head_token(l) =~= l.subrange(0, 0));
    } else {
        assert(forall|i: int| 0 <= i < l.drop_first().len() ==> l.drop_first()[i] == l[i + 1]);
        lemma_head_token_range(l.drop_first(), b - 1);
        assert(seq![l[0]] + l.drop_first().subrange(0, b - 1) =~= l.subrange(0, b));
    }
}

/// The address field of a line: the first whitespace-separated token.
/// Whatever follows it (an optional read/write tag) is ignored.
pub open spec fn line_token(l: Seq<u8>) -> Seq<u8> {
    head_token(skip_spaces(l))
}

/// A line is acceptable when its address field is a nonempty string of
/// hexadecimal digits whose value fits the machine word.
pub open spec fn line_ok(l: Seq<u8>) -> bool {
    let t = line_token(l);
    &&& t.len() > 0
    &&& forall|i: int| 0 <= i < t.len() ==> is_hex_digit(#[trigger] t[i])
    &&& hex_value(t) <= usize::MAX as nat
}

/// The address a line denotes.
pub open spec fn line_value(l: Seq<u8>) -> nat {
    hex_value(line_token(l))
}

/// A whole trace text is acceptable when every line is.
pub open spec fn trace_ok(s: Seq<u8>) -> bool {
    forall|k: int| 0 <= k < split_lines(s).len() ==> line_ok(#[trigger] split_lines(s)[k])
}

/// An ordered, read-only sequence of virtual addresses to replay.
#[derive(Debug)]
pub struct Trace {
    pub operations: Vec<usize>,
}

impl View for Trace {
    type V = Seq<usize>;

    open spec fn view(&self) -> Seq<usize> {
        self.operations@
    }
}

impl Trace {
    /// An empty trace.
    pub fn new() -> (t: Trace)
        ensures
            t@ == Seq::<usize>::empty(),
    {
        let t = Trace { operations: Vec::new() };
        proof {
            assert(t@ =~= Seq::<usize>::empty());
        }
        t
    }

    /// A trace over already-parsed addresses.
    pub fn from_operations(operations: Vec<usize>) -> (t: Trace)
        ensures
            t@ == operations@,
    {
        Trace { operations }
    }

    /// The addresses, in replay order.
    pub fn operations(&self) -> (r: &Vec<usize>)
        ensures
            r@ == self@,
    {
        &self.operations
    }

    /// Parse trace text: one address per line, written in hexadecimal,
    /// optionally followed by whitespace and a tag (such as a read/write
    /// marker) that the translation core ignores. Empty input parses to the
    /// empty trace; any line without a well-formed address field is an
    /// `InvalidTraceLine` error.
    pub fn from_str(s: &str) -> (r: Result<Trace, SimulationError>)
        ensures
            trace_ok(s.spec_bytes()) ==> {
                &&& r matches Ok(t)
                &&& r matches Ok(t) ==> {
                    &&& t@.len() == split_lines(s.spec_bytes()).len()
                    &&& forall|k: int|
                        0 <= k < t@.len() ==> (#[trigger] t@[k]) as nat == line_value(
                            split_lines(s.spec_bytes())[k],
                        )
                }
            },
            !trace_ok(s.spec_bytes()) ==> r == Err::<Trace, SimulationError>(
                SimulationError::InvalidTraceLine,
            ),
    {
        let bytes: &[u8] = s.as_bytes();
        let len = bytes.len();
        let ghost whole = bytes@;
        let ghost lines = split_lines(whole);
        let mut operations: Vec<usize> = Vec::new();
        let mut pos: usize = 0;
        proof {
            assert(whole.subrange(0, len as int) =~= whole);
            assert(lines.skip(0) =~= lines);
        }
        while pos < len
            invariant
                whole == s.spec_bytes(),
                bytes@ == whole,
                lines == split_lines(whole),
                len == whole.len(),
                pos <= len,
                operations@.len() <= lines.len(),
                split_lines(whole.subrange(pos as int, len as int)) == lines.skip(
                    operations@.len() as int,
                ),
                forall|k: int|
                    0 <= k < operations@.len() ==> line_ok(#[trigger] lines[k])
                        && operations@[k] as nat == line_value(lines[k]),
            decreases len - pos,
        {
            let ghost suffix = whole.subrange(pos as int, len as int);
            let mut e = pos;
            while e < len && bytes[e] != 10
                invariant
                    bytes@ == whole,
                    len == whole.len(),
                    pos <= e <= len,
                    forall|i: int| pos <= i < e ==> whole[i] != 10,
                decreases len - e,
            {
                e = e + 1;
            }
            proof {
                lemma_newline_pos(suffix);
                let p = newline_pos(suffix);
                assert(forall|i: int| 0 <= i < suffix.len() ==> suffix[i] == whole[pos + i]);
                if p < e - pos {
                    assert(suffix[p] == 10);
                    assert(false);
                }
                if p > e - pos {
                    assert(e < len);
                    assert(suffix[e - pos] != 10);
                    assert(false);
                }
                assert(p == e - pos);
                assert(suffix.subrange(0, p) =~= whole.subrange(pos as int, e as int));
                if p == suffix.len() {
                    assert(suffix =~= whole.subrange(pos as int, e as int));
                }
            }
            let ghost line = whole.subrange(pos as int, e as int);
            proof {
                let olen = operations@.len() as int;
                assert(split_lines(suffix) == lines.skip(olen));
                if newline_pos(suffix) == suffix.len() {
                    assert(split_lines(suffix) =~= seq![line]);
                } else {
                    assert(split_lines(suffix)[0] == suffix.subrange(0, newline_pos(suffix)));
                }
                assert(split_lines(suffix)[0] == line);
                assert(lines.skip(olen).len() == lines.len() - olen);
                assert(olen < lines.len());
                assert(lines.skip(olen)[0] == lines[olen]);
                assert(lines[olen] == line);
            }
            match parse_hex_line(bytes, pos, e) {
                Ok(v) => {
                    operations.push(v);
                },
                Err(_) => {
                    proof {
                        assert(!line_ok(lines[operations@.len() as int]));
                    }
                    return Err(SimulationError::InvalidTraceLine);
                },
            }
            proof {
                let olen = operations@.len() as int - 1;
                if newline_pos(suffix) == suffix.len() {
                    assert(lines.skip(olen) =~= seq![line]);
                    assert(lines.skip(olen + 1) =~= Seq::<Seq<u8>>::empty());
                    assert(whole.subrange(len as int, len as int).len() == 0);
                } else {
                    assert(lines.skip(olen).drop_first() =~= lines.skip(olen + 1));
                    assert(suffix.subrange(
                        e - pos + 1,
                        suffix.len() as int,
                    ) =~= whole.subrange(e as int + 1, len as int));
                }
            }
            if e < len {
                pos = e + 1;
            } else {
                pos = len;
            }
        }
        proof {
            assert(whole.subrange(len as int, len as int).len() == 0);
            assert(lines.skip(operations@.len() as int).len() == 0);
            assert(operations@.len() == lines.len());
        }
        Ok(Trace { operations })
    }
}

impl PartialEq for Trace {
    fn eq(&self, other: &Trace) -> (r: bool) {
        let n = self.operations.len();
        if n != other.operations.len() {
            return false;
        }
        let mut i: usize = 0;
        while i < n
            invariant
                n == self.operations@.len(),
                n == other.operations@.len(),
                i <= n,
                forall|k: int| 0 <= k < i ==> self.operations@[k] == other.operations@[k],
            decreases n - i,
        {
            if self.operations[i] != other.operations[i] {
                return false;
            }
            i = i + 1;
        }
        proof {
            assert(self@ =~= other@);
        }
        true
    }
}

impl vstd::std_specs::cmp::PartialEqSpecImpl for Trace {
    open spec fn obeys_eq_spec() -> bool {
        true
    }

    open spec fn eq_spec(&self, other: &Trace) -> bool {
        self@ == other@
    }
}

/// Whether a byte is horizontal whitespace.
fn is_space_byte(b: u8) -> (r: bool)
    ensures
        r == is_line_space(b),
{
    b == 32 || b == 9 || b == 13
}

/// Parse the address field of one line, `bytes[start..end]`: skip leading
/// whitespace, read a nonempty run of hexadecimal digits, and ignore the
/// rest of the line.
fn parse_hex_line(bytes: &[u8], start: usize, end: usize) -> (r: Result<usize, SimulationError>)
    requires
        start <= end <= bytes@.len(),
    ensures
        ({
            let l = bytes@.subrange(start as int, end as int);
            &&& line_ok(l) ==> (r matches Ok(v) && v as nat == line_value(l))
            &&& !line_ok(l) ==> r == Err::<usize, SimulationError>(
                SimulationError::InvalidTraceLine,
            )
        }),
{
    let ghost l = bytes@.subrange(start as int, end as int);
    proof {
        assert(forall|i: int| 0 <= i < l.len() ==> l[i] == bytes@[start + i]);
    }
    let mut j = start;
    while j < end && is_space_byte(bytes[j])
        invariant
            start <= j <= end <= bytes@.len(),
            forall|i: int| start <= i < j ==> is_line_space(bytes@[i]),
        decreases end - j,
    {
        j = j + 1;
    }
    proof {
        lemma_skip_spaces_range(l, j - start);
    }
    let ghost tail = l.subrange(j - start, l.len() as int);
    proof {
        assert(forall|i: int| 0 <= i < tail.len() ==> tail[i] == bytes@[j + i]);
    }
    let mut k = j;
    while k < end && !is_space_byte(bytes[k])
        invariant
            start <= j <= k <= end <= bytes@.len(),
            forall|i: int| j <= i < k ==> !is_line_space(bytes@[i]),
        decreases end - k,
    {
        k = k + 1;
    }
    proof {
        lemma_head_token_range(tail, k - j);
        assert(tail.subrange(0, k - j) =~= bytes@.subrange(j as int, k as int));
    }
    let ghost token = bytes@.subrange(j as int, k as int);
    proof {
        assert(line_token(l) == token);
        assert(forall|i: int| 0 <= i < token.len() ==> token[i] == bytes@[j + i]);
    }
    if j == k {
        return Err(SimulationError::InvalidTraceLine);
    }
    let mut acc: usize = 0;
    let mut p = j;
    while p < k
        invariant
            start <= j <= p <= k <= end <= bytes@.len(),
            l == bytes@.subrange(start as int, end as int),
            token == bytes@.subrange(j as int, k as int),
            token == line_token(l),
            forall|i: int| 0 <= i < p - j ==> is_hex_digit(#[trigger] token[i]),
            acc as nat == hex_value(token.subrange(0, p - j)),
            hex_value(token.subrange(0, p - j)) <= usize::MAX as nat,
        decreases k - p,
    {
        let b = bytes[p];
        proof {
            assert(token[p - j] == b);
            assert(token.subrange(0, p - j + 1).drop_last() =~= token.subrange(0, p - j));
            assert(token.subrange(0, p - j + 1).last() == b);
        }
        let d: u8 = if b >= 48 && b <= 57 {
            b - 48
        } else if b >= 97 && b <= 102 {
            b - 87
        } else if b >= 65 && b <= 70 {
            b - 55
        } else {
            return Err(SimulationError::InvalidTraceLine);
        };
        let du = d as usize;
        if acc > (usize::MAX - du) / 16 {
            proof {
                lemma_fundamental_div_mod((usize::MAX - du) as int, 16);
                lemma_mod_division_less_than_divisor((usize::MAX - du) as int, 16);
                lemma_mul_inequality(
                    (usize::MAX - du) as int / 16 + 1,
                    acc as int,
                    16,
                );
                assert(16 * (acc as int) + du > usize::MAX);
                lemma_hex_value_prefix_le(token, p - j + 1);
            }
            return Err(SimulationError::InvalidTraceLine);
        }
        proof {
            lemma_fundamental_div_mod((usize::MAX - du) as int, 16);
            lemma_mod_division_less_than_divisor((usize::MAX - du) as int, 16);
            lemma_mul_inequality(acc as int, (usize::MAX - du) as int / 16, 16);
        }
        acc = acc * 16 + du;
        p = p + 1;
    }
    proof {
        assert(token.subrange(0, k - j) =~= token);
    }
    Ok(acc)
}

/// Parse a decimal unsigned integer: the whole string must be decimal
/// digits (an empty string counts as zero), and the value must fit the
/// machine word.
pub fn parse_usize(s: &str) -> (r: Option<usize>)
    ensures
        ({
            let b = s.spec_bytes();
            let ok = (forall|i: int| 0 <= i < b.len() ==> is_dec_digit(#[trigger] b[i]))
                && dec_value(b) <= usize::MAX as nat;
            &&& ok ==> (r matches Some(v) && v as nat == dec_value(b))
            &&& !ok ==> r is None
        }),
{
    let bytes: &[u8] = s.as_bytes();
    let len = bytes.len();
    let mut acc: usize = 0;
    let mut p: usize = 0;
    while p < len
        invariant
            bytes@ == s.spec_bytes(),
            len == bytes@.len(),
            p <= len,
            forall|i: int| 0 <= i < p ==> is_dec_digit(#[trigger] bytes@[i]),
            acc as nat == dec_value(bytes@.subrange(0, p as int)),
            dec_value(bytes@.subrange(0, p as int)) <= usize::MAX as nat,
        decreases len - p,
    {
        let b = bytes[p];
        proof {
            assert(bytes@.subrange(0, p as int + 1).drop_last() =~= bytes@.subrange(0, p as int));
            assert(bytes@.subrange(0, p as int + 1).last() == b);
        }
        if !(b >= 48 && b <= 57) {
            return None;
        }
        let du = (b - 48) as usize;
        if acc > (usize::MAX - du) / 10 {
            proof {
                lemma_fundamental_div_mod((usize::MAX - du) as int, 10);
                lemma_mod_division_less_than_divisor((usize::MAX - du) as int, 10);
                lemma_mul_inequality(
                    (usize::MAX - du) as int / 10 + 1,
                    acc as int,
                    10,
                );
                assert(10 * (acc as int) + du > usize::MAX);
                lemma_dec_value_prefix_le(bytes@, p as int + 1);
            }
            return None;
        }
        proof {
            lemma_fundamental_div_mod((usize::MAX - du) as int, 10);
            lemma_mod_division_less_than_divisor((usize::MAX - du) as int, 10);
            lemma_mul_inequality(acc as int, (usize::MAX - du) as int / 10, 10);
        }
        acc = acc * 10 + du;
        p = p + 1;
    }
    proof {
        assert(bytes@.subrange(0, len as int) =~= bytes@);
    }
    Some(acc)
}

} // verus!
