//! Parsing of the text description of a linear circuit.
use vstd::prelude::*;
use crate::error::GadgetError;
use crate::linear_circuit::{Bank, CircuitDescription, LinearGate, Wire};

verus! {

/// A blank byte inside a line.
pub open spec fn is_blank(b: u8) -> bool {
    b == 32 || b == 9 || b == 13
}

/// Scanning `s` splits it at every `sep` (or, when `blanks`, at every run of blank bytes):
/// the finished pieces and the piece being read.
pub open spec fn scan(s: Seq<u8>, blanks: bool) -> (Seq<Seq<u8>>, Seq<u8>)
    decreases s.len(),
{
    if s.len() == 0 {
        (Seq::empty(), Seq::empty())
    } else {
        let (done, cur) = scan(s.drop_last(), blanks);
        let b = s.last();
        if blanks {
            if is_blank(b) {
                if cur.len() > 0 {
                    (done.push(cur), Seq::empty())
                } else {
                    (done, cur)
                }
            } else {
                (done, cur.push(b))
            }
        } else {
            if b == 10 {
                (done.push(cur), Seq::empty())
            } else {
                (done, cur.push(b))
            }
        }
    }
}

/// The lines of `s` (split at every line feed; a last empty line is dropped).
pub open spec fn lines(s: Seq<u8>) -> Seq<Seq<u8>> {
    let (done, cur) = scan(s, false);
    if cur.len() > 0 { done.push(cur) } else { done }
}

/// The words of a line: its maximal runs of non-blank bytes.
pub open spec fn words(s: Seq<u8>) -> Seq<Seq<u8>> {
    let (done, cur) = scan(s, true);
    if cur.len() > 0 { done.push(cur) } else { done }
}

/// The value of the decimal digits `s` (every byte a digit).
pub open spec fn decimal(s: Seq<u8>) -> int
    decreases s.len(),
{
    if s.len() == 0 {
        0
    } else {
        10 * decimal(s.drop_last()) + (s.last() - 48)
    }
}

/// `s` is a nonempty run of decimal digits.
pub open spec fn all_digits(s: Seq<u8>) -> bool {
    s.len() > 0 && forall|i: int| 0 <= i < s.len() ==> 48 <= #[trigger] s[i] <= 57
}

/// The number that `s` spells, when it is one below `2^32`.
pub open spec fn number(s: Seq<u8>) -> Option<int> {
    if all_digits(s) && decimal(s) < 0x1_0000_0000 {
        Some(decimal(s))
    } else {
        None
    }
}

/// The wire named by `s` (a letter `x`, `t` or `y` then a number), its number reduced by the
/// offset of its bank.
pub open spec fn wire_named(s: Seq<u8>, offsets: (int, int, int)) -> Option<Wire> {
    if s.len() == 0 {
        None
    } else {
        let bank = if s[0] == 120 {
            Some(Bank::X)
        } else if s[0] == 116 {
            Some(Bank::T)
        } else if s[0] == 121 {
            Some(Bank::Y)
        } else {
            None
        };
        let offset = if s[0] == 120 { offsets.0 } else if s[0] == 116 { offsets.1 } else { offsets.2 };
        match (bank, number(s.subrange(1, s.len() as int))) {
            (Some(b), Some(n)) => if n >= offset {
                Some(Wire { bank: b, index: (n - offset) as usize })
            } else {
                None
            },
            _ => None,
        }
    }
}

/// The word `XOR`.
pub open spec fn xor_word() -> Seq<u8> {
    seq![88u8, 79, 82]
}

/// The word `XNOR`.
pub open spec fn xnor_word() -> Seq<u8> {
    seq![88u8, 78, 79, 82]
}

/// The linear gate that the five tokens of `w` spell, if they spell one.
pub open spec fn gate_of_words(w: Seq<Seq<u8>>, offsets: (int, int, int)) -> Option<LinearGate> {
    if w.len() != 5 {
        None
    } else {
        let xnor = w[3] == xnor_word();
        let xor = w[3] == xor_word();
        match (wire_named(w[0], offsets), wire_named(w[2], offsets), wire_named(w[4], offsets)) {
            (Some(d), Some(a), Some(b)) => if xor || xnor {
                Some(LinearGate { dst: d, src1: a, src2: b, xnor })
            } else {
                None
            },
            _ => None,
        }
    }
}

/// The gates of lines `1..k` (blank lines skipped), or `None` at the first malformed one.
pub open spec fn gates_of(ls: Seq<Seq<u8>>, k: int, offsets: (int, int, int)) -> Option<Seq<LinearGate>>
    decreases k,
{
    if k <= 1 {
        Some(Seq::empty())
    } else {
        match gates_of(ls, k - 1, offsets) {
            Some(g) => if words(ls[k - 1]).len() == 0 {
                Some(g)
            } else {
                match gate_of_words(words(ls[k - 1]), offsets) {
                    Some(gate) => Some(g.push(gate)),
                    None => None,
                }
            },
            None => None,
        }
    }
}

/// The six numbers of the header line.
pub open spec fn header_of(ls: Seq<Seq<u8>>) -> Option<Seq<int>> {
    if ls.len() == 0 {
        None
    } else {
        let w = words(ls[0]);
        if w.len() == 6 && forall|i: int| 0 <= i < 6 ==> (#[trigger] number(w[i])) is Some {
            Some(Seq::new(6, |i: int| number(w[i])->Some_0))
        } else {
            None
        }
    }
}

/// Splits `s` into pieces (see `scan`).
fn split_bytes(s: &[u8], blanks: bool) -> (r: Vec<Vec<u8>>)
    ensures
        r@.len() == (if blanks { words(s@) } else { lines(s@) }).len(),
        forall|i: int| 0 <= i < r@.len() ==> #[trigger] r@[i]@ == (if blanks { words(s@) } else { lines(s@) })[i],
{
    let mut done: Vec<Vec<u8>> = Vec::new();
    let mut cur: Vec<u8> = Vec::new();
    let mut i: usize = 0;
    while i < s.len()
        invariant
            i <= s@.len(),
            done@.len() == scan(s@.subrange(0, i as int), blanks).0.len(),
            forall|j: int| 0 <= j < done@.len() ==> #[trigger] done@[j]@ == scan(s@.subrange(0, i as int), blanks).0[j],
            cur@ == scan(s@.subrange(0, i as int), blanks).1,
        decreases s.len() - i,
    {
        let b = s[i];
        proof {
            assert(s@.subrange(0, i + 1).drop_last() =~= s@.subrange(0, i as int));
            assert(s@.subrange(0, i + 1).last() == b);
        }
        let split = if blanks { b == 32 || b == 9 || b == 13 } else { b == 10 };
        if split {
            if !blanks || cur.len() > 0 {
                done.push(cur);
            }
            cur = Vec::new();
        } else {
            cur.push(b);
        }
        i = i + 1;
    }
    assert(s@.subrange(0, s@.len() as int) =~= s@);
    if cur.len() > 0 {
        done.push(cur);
    }
    done
}

/// The number that `s` spells.
pub(crate) fn parse_number(s: &[u8]) -> (r: Option<usize>)
    ensures
        r is Some <==> number(s@) is Some,
        r is Some ==> r->Some_0 as int == number(s@)->Some_0,
{
    if s.len() == 0 {
        return None;
    }
    let mut v: u64 = 0;
    let mut i: usize = 0;
    while i < s.len()
        invariant
            i <= s@.len(),
            v as int == decimal(s@.subrange(0, i as int)),
            v < 0x1_0000_0000,
            forall|j: int| 0 <= j < i ==> 48 <= #[trigger] s@[j] <= 57,
        decreases s.len() - i,
    {
        let b = s[i];
        proof {
            assert(s@.subrange(0, i + 1).drop_last() =~= s@.subrange(0, i as int));
        }
        if b < 48 || b > 57 {
            return None;
        }
        let next = v * 10 + (b - 48) as u64;
        if next >= 0x1_0000_0000 {
            proof {
                assert(s@.subrange(0, i + 1).drop_last() =~= s@.subrange(0, i as int));
                if all_digits(s@) {
                    lemma_decimal_grows(s@, i as int + 1);
                }
            }
            return None;
        }
        v = next;
        i = i + 1;
    }
    assert(s@.subrange(0, s@.len() as int) =~= s@);
    Some(v as usize)
}


/// The wire named by `s`.
fn parse_wire(s: &Vec<u8>, offsets: (usize, usize, usize)) -> (r: Option<Wire>)
    ensures
        r == wire_named(s@, (offsets.0 as int, offsets.1 as int, offsets.2 as int)),
{
    if s.len() == 0 {
        return None;
    }
    let c = s[0];
    let (bank, offset) = if c == 120 {
        (Bank::X, offsets.0)
    } else if c == 116 {
        (Bank::T, offsets.1)
    } else if c == 121 {
        (Bank::Y, offsets.2)
    } else {
        return None;
    };
    let digits = slice_from(s, 1);
    match parse_number(digits.as_slice()) {
        Some(n) => if n >= offset {
            Some(Wire { bank, index: n - offset })
        } else {
            None
        },
        None => None,
    }
}

/// The bytes of `s` from position `start` on.
fn slice_from(s: &Vec<u8>, start: usize) -> (r: Vec<u8>)
    requires
        start <= s@.len(),
    ensures
        r@ == s@.subrange(start as int, s@.len() as int),
{
    let mut r: Vec<u8> = Vec::new();
    let mut i: usize = start;
    while i < s.len()
        invariant
            start <= i <= s@.len(),
            r@ == s@.subrange(start as int, i as int),
        decreases s.len() - i,
    {
        r.push(s[i]);
        proof {
            assert(r@ =~= s@.subrange(start as int, i + 1));
        }
        i = i + 1;
    }
    r
}

/// Whether `w` is `XOR` (`Some(false)`), `XNOR` (`Some(true)`), or neither.
fn gate_kind(w: &Vec<u8>) -> (r: Option<bool>)
    ensures
        r == if w@ == seq![88u8, 79, 82] {
            Some(false)
        } else if w@ == seq![88u8, 78, 79, 82] {
            Some(true)
        } else {
            None::<bool>
        },
{
    if w.len() == 3 && w[0] == 88 && w[1] == 79 && w[2] == 82 {
        assert(w@ =~= seq![88u8, 79, 82]);
        return Some(false);
    }
    if w.len() == 4 && w[0] == 88 && w[1] == 78 && w[2] == 79 && w[3] == 82 {
        assert(w@ =~= seq![88u8, 78, 79, 82]);
        return Some(true);
    }
    proof {
        if w@ == seq![88u8, 79, 82] {
            assert(w@[0] == 88u8 && w@[1] == 79u8 && w@[2] == 82u8);
        }
        if w@ == seq![88u8, 78, 79, 82] {
            assert(w@[0] == 88u8 && w@[1] == 78u8 && w@[2] == 79u8 && w@[3] == 82u8);
        }
    }
    None
}

/// Parses the description `text` of a linear circuit (see the module documentation). Fails
/// with `MalformedDescription` exactly when the header or a gate line does not follow the grammar.
pub fn parse_circuit(text: &[u8]) -> (r: Result<CircuitDescription, GadgetError>)
    ensures
        ({
            let ls = lines(text@);
            let h = header_of(ls);
            &&& r is Ok <==> h is Some && gates_of(ls, ls.len() as int, (h->Some_0[1], h->Some_0[3], h->Some_0[5])) is Some
            &&& r is Err ==> r->Err_0 == GadgetError::MalformedDescription
            &&& r is Ok ==> r->Ok_0.n_in == h->Some_0[0] && r->Ok_0.n_int == h->Some_0[2] && r->Ok_0.n_out == h->Some_0[4]
                && r->Ok_0.gates@ == gates_of(ls, ls.len() as int, (h->Some_0[1], h->Some_0[3], h->Some_0[5]))->Some_0
        }),
{
    let ls = split_bytes(text, false);
    let ghost sl = lines(text@);
    if ls.len() == 0 {
        return Err(GadgetError::MalformedDescription);
    }
    let head = split_bytes(ls[0].as_slice(), true);
    if head.len() != 6 {
        return Err(GadgetError::MalformedDescription);
    }
    let mut nums: Vec<usize> = Vec::new();
    let mut i: usize = 0;
    while i < 6
        invariant
            sl == lines(text@),
            head@.len() == 6,
            ls@.len() == sl.len(),
            ls@[0]@ == sl[0],
            forall|j: int| 0 <= j < 6 ==> #[trigger] head@[j]@ == words(sl[0])[j],
            words(sl[0]).len() == 6,
            i <= 6,
            nums@.len() == i,
            forall|j: int| 0 <= j < i ==> (#[trigger] number(words(sl[0])[j])) is Some && nums@[j] as int == number(words(sl[0])[j])->Some_0,
        decreases 6 - i,
    {
        match parse_number(head[i].as_slice()) {
            Some(n) => nums.push(n),
            None => {
                proof {
                    assert(!(number(words(sl[0])[i as int]) is Some));
                    assert(header_of(sl) is None);
                }
                return Err(GadgetError::MalformedDescription);
            },
        }
        i = i + 1;
    }
    let ghost h = Seq::new(6, |j: int| number(words(sl[0])[j])->Some_0);
    assert(header_of(sl) == Some(h));
    let offsets = (nums[1], nums[3], nums[5]);
    let ghost offs = (h[1], h[3], h[5]);
    let mut gates: Vec<LinearGate> = Vec::new();
    let mut k: usize = 1;
    while k < ls.len()
        invariant
            sl == lines(text@),
            header_of(sl) == Some(h),
            offs == (h[1], h[3], h[5]),
            ls@.len() == sl.len(),
            forall|j: int| 0 <= j < ls@.len() ==> #[trigger] ls@[j]@ == sl[j],
            offs == (offsets.0 as int, offsets.1 as int, offsets.2 as int),
            1 <= k <= ls@.len(),
            gates_of(sl, k as int, offs) == Some(gates@),
        decreases ls.len() - k,
    {
        let w = split_bytes(ls[k].as_slice(), true);
        let ghost ws = words(sl[k as int]);
        assert(ls@[k as int]@ == sl[k as int]);
        assert(w@.len() == ws.len());
        assert(forall|j: int| 0 <= j < w@.len() ==> #[trigger] w@[j]@ == ws[j]);
        if w.len() != 0 {
            if w.len() != 5 {
                proof {
                    assert(gate_of_words(ws, offs) is None);
                    assert(gates_of(sl, k as int + 1, offs) is None);
                    lemma_gates_stay_none(sl, k as int + 1, sl.len() as int, offs);
                }
                return Err(GadgetError::MalformedDescription);
            }
            let d = parse_wire(&w[0], offsets);
            let a = parse_wire(&w[2], offsets);
            let b = parse_wire(&w[4], offsets);
            let kind = gate_kind(&w[3]);
            match (d, a, b, kind) {
                (Some(d), Some(a), Some(b), Some(x)) => {
                    gates.push(LinearGate { dst: d, src1: a, src2: b, xnor: x });
                    proof {
                        assert(w@[0]@ == ws[0] && w@[2]@ == ws[2] && w@[3]@ == ws[3] && w@[4]@ == ws[4]);
                        assert(gate_of_words(ws, offs) == Some(LinearGate { dst: d, src1: a, src2: b, xnor: x }));
                    }
                },
                _ => {
                    proof {
                        assert(w@[0]@ == ws[0] && w@[2]@ == ws[2] && w@[3]@ == ws[3] && w@[4]@ == ws[4]);
                        assert(gate_of_words(ws, offs) is None);
                        assert(gates_of(sl, k as int + 1, offs) is None);
                        lemma_gates_stay_none(sl, k as int + 1, sl.len() as int, offs);
                    }
                    return Err(GadgetError::MalformedDescription);
                },
            }
        }
        k = k + 1;
    }
    Ok(CircuitDescription { n_in: nums[0], n_int: nums[2], n_out: nums[4], gates })
}

/// Once a gate line is malformed, no longer prefix of lines parses.
proof fn lemma_gates_stay_none(ls: Seq<Seq<u8>>, a: int, b: int, offsets: (int, int, int))
    requires
        1 <= a <= b,
        gates_of(ls, a, offsets) is None,
    ensures
        gates_of(ls, b, offsets) is None,
    decreases b - a,
{
    if a < b {
        lemma_gates_stay_none(ls, a, b - 1, offsets);
    }
}

/// A prefix of digits has no larger value than the whole run.
proof fn lemma_decimal_grows(s: Seq<u8>, k: int)
    requires
        0 <= k <= s.len(),
        all_digits(s),
    ensures
        decimal(s.subrange(0, k)) <= decimal(s),
    decreases s.len() - k,
{
    if k < s.len() {
        lemma_decimal_grows(s, k + 1);
        assert(s.subrange(0, k + 1).drop_last() =~= s.subrange(0, k));
        lemma_decimal_nonneg(s.subrange(0, k));
    } else {
        assert(s.subrange(0, k) =~= s);
    }
}

proof fn lemma_decimal_nonneg(s: Seq<u8>)
    requires
        forall|i: int| 0 <= i < s.len() ==> 48 <= #[trigger] s[i] <= 57,
    ensures
        decimal(s) >= 0,
    decreases s.len(),
{
    if s.len() > 0 {
        lemma_decimal_nonneg(s.drop_last());
    }
}

} // verus!
