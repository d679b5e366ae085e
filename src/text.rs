//! The text form of a circuit: one layer per line, outputs first. A line
//! with a comma holds gates `w0,w1,op` with `op` one of `+` and `*`; a line
//! without one holds input values. Items are separated by blanks.
use vstd::prelude::*;
use crate::circuit::Gate;

verus! {

pub open spec fn is_blank(b: u8) -> bool {
    b == 32 || b == 9 || b == 13
}

pub open spec fn is_digit(b: u8) -> bool {
    48 <= b <= 57
}

/// The pieces of `s` between occurrences of `sep`; never empty.
pub open spec fn split_on(s: Seq<u8>, sep: u8) -> Seq<Seq<u8>>
    decreases s.len(),
{
    if s.len() == 0 {
        seq![Seq::<u8>::empty()]
    } else {
        let prev = split_on(s.drop_last(), sep);
        if s.last() == sep {
            prev.push(Seq::<u8>::empty())
        } else {
            prev.update(prev.len() - 1, prev.last().push(s.last()))
        }
    }
}

/// The maximal runs of non-blank bytes of `s`.
pub open spec fn words(s: Seq<u8>) -> Seq<Seq<u8>>
    decreases s.len(),
{
    if s.len() == 0 {
        Seq::<Seq<u8>>::empty()
    } else {
        let prev = words(s.drop_last());
        if is_blank(s.last()) {
            prev
        } else if s.len() == 1 || is_blank(s[s.len() - 2]) {
            prev.push(seq![s.last()])
        } else {
            prev.update(prev.len() - 1, prev.last().push(s.last()))
        }
    }
}

/// The lines of a text: the pieces between newlines, without the empty
/// piece after a final newline.
pub open spec fn text_lines(s: Seq<u8>) -> Seq<Seq<u8>> {
    let pieces = split_on(s, 10);
    if pieces.last().len() == 0 {
        pieces.drop_last()
    } else {
        pieces
    }
}

/// The decimal value of a run of digits.
pub open spec fn digits_value(s: Seq<u8>) -> nat
    decreases s.len(),
{
    if s.len() == 0 {
        0
    } else {
        digits_value(s.drop_last()) * 10 + (s.last() - 48) as nat
    }
}

/// A decimal number of at most `max`.
pub open spec fn is_number(s: Seq<u8>, max: nat) -> bool {
    &&& s.len() > 0
    &&& forall|k: int| 0 <= k < s.len() ==> is_digit(#[trigger] s[k])
    &&& digits_value(s) <= max
}

/// A gate item: two indices and an operation, separated by commas.
pub open spec fn is_gate_item(w: Seq<u8>) -> bool {
    let parts = split_on(w, 44);
    &&& parts.len() == 3
    &&& is_number(parts[0], usize::MAX as nat)
    &&& is_number(parts[1], usize::MAX as nat)
    &&& (parts[2] == seq![43u8] || parts[2] == seq![42u8])
}

pub open spec fn gate_of_item(w: Seq<u8>) -> Gate {
    let parts = split_on(w, 44);
    Gate {
        w0: digits_value(parts[0]) as usize,
        w1: digits_value(parts[1]) as usize,
        is_add: parts[2] == seq![43u8],
        value: 0,
    }
}

pub open spec fn input_of_item(w: Seq<u8>) -> Gate {
    Gate { w0: 0, w1: 0, is_add: false, value: digits_value(w) as u64 }
}

pub open spec fn is_gate_line(line: Seq<u8>) -> bool {
    line.contains(44)
}

/// Whether every item of the line is well formed.
pub open spec fn line_ok(line: Seq<u8>) -> bool {
    if is_gate_line(line) {
        forall|k: int| 0 <= k < words(line).len() ==> is_gate_item(#[trigger] words(line)[k])
    } else {
        forall|k: int| 0 <= k < words(line).len() ==> is_number(#[trigger] words(line)[k], u64::MAX as nat)
    }
}

/// The layer that a well-formed line describes.
pub open spec fn layer_of_line(line: Seq<u8>) -> Seq<Gate> {
    if is_gate_line(line) {
        words(line).map_values(|w: Seq<u8>| gate_of_item(w))
    } else {
        words(line).map_values(|w: Seq<u8>| input_of_item(w))
    }
}

#[derive(Clone, Copy, Debug, PartialEq, Eq, Structural)]
pub enum ParseError {
    /// The line of this index (from 0) holds an item that is not well formed.
    BadLine { line: usize },
}

pub open spec fn nested_view(v: Seq<Vec<u8>>) -> Seq<Seq<u8>> {
    v.map_values(|x: Vec<u8>| x@)
}

/// Splits `s` at every occurrence of `sep`.
pub fn split_bytes(s: &[u8], sep: u8) -> (r: Vec<Vec<u8>>)
    ensures
        nested_view(r@) == split_on(s@, sep),
{
    let mut pieces: Vec<Vec<u8>> = Vec::new();
    let mut cur: Vec<u8> = Vec::new();
    let mut i: usize = 0;
    assert(s@.subrange(0, 0) =~= Seq::<u8>::empty());
    assert(nested_view(pieces@).push(cur@) =~= split_on(s@.subrange(0, 0), sep));
    while i < s.len()
        invariant
            i <= s@.len(),
            nested_view(pieces@).push(cur@) == split_on(s@.subrange(0, i as int), sep),
        decreases s@.len() - i,
    {
        let b = s[i];
        let ghost pre = s@.subrange(0, i as int);
        let ghost next = s@.subrange(0, i + 1);
        assert(next.drop_last() =~= pre);
        assert(next.last() == b);
        if b == sep {
            pieces.push(cur);
            cur = Vec::new();
            assert(nested_view(pieces@).push(cur@) =~= split_on(pre, sep).push(Seq::<u8>::empty()));
        } else {
            let ghost old_cur = cur@;
            cur.push(b);
            assert(nested_view(pieces@).push(cur@) =~= split_on(pre, sep).update(
                split_on(pre, sep).len() - 1,
                old_cur.push(b),
            ));
        }
        i = i + 1;
    }
    assert(s@.subrange(0, s@.len() as int) =~= s@);
    pieces.push(cur);
    assert(nested_view(pieces@) =~= split_on(s@, sep));
    pieces
}

proof fn lemma_words_prefix_last(s: Seq<u8>)
    requires
        s.len() > 0,
        !is_blank(s.last()),
    ensures
        words(s).len() > 0,
    decreases s.len(),
{
    if !(s.len() == 1 || is_blank(s[s.len() - 2])) {
        lemma_words_prefix_last(s.drop_last());
    }
}

proof fn lemma_split_nonempty(s: Seq<u8>, sep: u8)
    ensures
        split_on(s, sep).len() >= 1,
    decreases s.len(),
{
    if s.len() > 0 {
        lemma_split_nonempty(s.drop_last(), sep);
    }
}

/// The maximal runs of non-blank bytes of `s`.
pub fn split_words(s: &[u8]) -> (r: Vec<Vec<u8>>)
    ensures
        nested_view(r@) == words(s@),
{
    let mut out: Vec<Vec<u8>> = Vec::new();
    let mut i: usize = 0;
    assert(s@.subrange(0, 0) =~= Seq::<u8>::empty());
    assert(nested_view(out@) =~= words(s@.subrange(0, 0)));
    while i < s.len()
        invariant
            i <= s@.len(),
            nested_view(out@) == words(s@.subrange(0, i as int)),
        decreases s@.len() - i,
    {
        let b = s[i];
        let ghost pre = s@.subrange(0, i as int);
        let ghost next = s@.subrange(0, i + 1);
        assert(next.drop_last() =~= pre);
        assert(next.last() == b);
        let blank = b == 32 || b == 9 || b == 13;
        if !blank {
            if i == 0 || s[i - 1] == 32 || s[i - 1] == 9 || s[i - 1] == 13 {
                assert(i > 0 ==> next[next.len() - 2] == s@[i - 1]);
                let mut w: Vec<u8> = Vec::new();
                w.push(b);
                out.push(w);
                assert(nested_view(out@) =~= words(pre).push(seq![b]));
            } else {
                assert(next[next.len() - 2] == s@[i - 1]);
                assert(pre.len() > 0 && pre.last() == s@[i - 1]);
                proof {
                    lemma_words_prefix_last(pre);
                }
                let ghost before = nested_view(out@);
                let mut w = out.pop().unwrap();
                w.push(b);
                out.push(w);
                assert(nested_view(out@) =~= before.update(before.len() - 1, before.last().push(b)));
            }
        }
        i = i + 1;
    }
    assert(s@.subrange(0, s@.len() as int) =~= s@);
    out
}

proof fn lemma_digits_grow(s: Seq<u8>, i: int)
    requires
        0 <= i <= s.len(),
    ensures
        digits_value(s.subrange(0, i)) <= digits_value(s),
    decreases s.len() - i,
{
    if i < s.len() {
        lemma_digits_grow(s, i + 1);
        assert(s.subrange(0, i + 1).drop_last() =~= s.subrange(0, i));
    } else {
        assert(s.subrange(0, i) =~= s);
    }
}

/// The decimal number that `w` spells, if it is one of at most `max`.
pub fn parse_number(w: &[u8], max: u64) -> (r: Option<u64>)
    ensures
        r is Some <==> is_number(w@, max as nat),
        r matches Some(v) ==> v == digits_value(w@),
{
    if w.len() == 0 {
        return None;
    }
    let mut val: u64 = 0;
    let mut i: usize = 0;
    assert(w@.subrange(0, 0) =~= Seq::<u8>::empty());
    while i < w.len()
        invariant
            i <= w@.len(),
            w@.len() > 0,
            forall|k: int| 0 <= k < i ==> is_digit(#[trigger] w@[k]),
            val == digits_value(w@.subrange(0, i as int)),
            val <= max,
        decreases w@.len() - i,
    {
        let b = w[i];
        if b < 48 || b > 57 {
            return None;
        }
        let big: u128 = (val as u128) * 10 + ((b - 48) as u128);
        assert(w@.subrange(0, i + 1).drop_last() =~= w@.subrange(0, i as int));
        if big > max as u128 {
            proof {
                lemma_digits_grow(w@, i + 1);
            }
            return None;
        }
        val = big as u64;
        i = i + 1;
    }
    assert(w@.subrange(0, w@.len() as int) =~= w@);
    Some(val)
}

/// Reads one gate item: two indices and an operation, separated by commas.
pub fn parse_gate_item(w: &[u8]) -> (r: Option<Gate>)
    ensures
        r is Some <==> is_gate_item(w@),
        r matches Some(g) ==> g == gate_of_item(w@),
{
    let parts = split_bytes(w, 44);
    let ghost pv = nested_view(parts@);
    if parts.len() != 3 {
        return None;
    }
    assert(pv[0] == parts@[0]@ && pv[1] == parts@[1]@ && pv[2] == parts@[2]@);
    let a = parse_number(parts[0].as_slice(), usize::MAX as u64);
    let b = parse_number(parts[1].as_slice(), usize::MAX as u64);
    let op = &parts[2];
    let is_plus = op.len() == 1 && op[0] == 43;
    let is_times = op.len() == 1 && op[0] == 42;
    if is_plus {
        assert(op@ =~= seq![43u8]);
    }
    if is_times {
        assert(op@ =~= seq![42u8]);
    }
    proof {
        if op@ == seq![43u8] {
            assert(op@.len() == 1 && op@[0] == 43);
        }
        if op@ == seq![42u8] {
            assert(op@.len() == 1 && op@[0] == 42);
        }
    }
    match (a, b) {
        (Some(x), Some(y)) => {
            if is_plus || is_times {
                Some(Gate { w0: x as usize, w1: y as usize, is_add: is_plus, value: 0 })
            } else {
                None
            }
        },
        _ => None,
    }
}

/// The layer that one line describes, if every item of it is well formed.
pub fn parse_line(line: &[u8]) -> (r: Option<Vec<Gate>>)
    ensures
        r is Some <==> line_ok(line@),
        r matches Some(v) ==> v@ == layer_of_line(line@),
{
    let mut has_comma = false;
    let mut k: usize = 0;
    while k < line.len()
        invariant
            k <= line@.len(),
            has_comma <==> exists|j: int| 0 <= j < k && line@[j] == 44,
        decreases line@.len() - k,
    {
        if line[k] == 44 {
            has_comma = true;
        }
        k = k + 1;
    }
    assert(has_comma == is_gate_line(line@));
    let ws = split_words(line);
    let ghost wv = nested_view(ws@);
    let mut out: Vec<Gate> = Vec::new();
    let mut i: usize = 0;
    while i < ws.len()
        invariant
            wv == nested_view(ws@),
            wv == words(line@),
            has_comma == is_gate_line(line@),
            i <= ws@.len(),
            out@.len() == i,
            has_comma ==> forall|k2: int| 0 <= k2 < i ==> is_gate_item(#[trigger] wv[k2]),
            !has_comma ==> forall|k2: int| 0 <= k2 < i ==> is_number(#[trigger] wv[k2], u64::MAX as nat),
            forall|k2: int| 0 <= k2 < i ==> #[trigger] out@[k2] == layer_of_line(line@)[k2],
        decreases ws@.len() - i,
    {
        let w = ws[i].as_slice();
        assert(w@ == wv[i as int]);
        if has_comma {
            match parse_gate_item(w) {
                Some(g) => out.push(g),
                None => {
                    return None;
                },
            }
        } else {
            match parse_number(w, u64::MAX) {
                Some(v) => out.push(Gate { w0: 0, w1: 0, is_add: false, value: v }),
                None => {
                    return None;
                },
            }
        }
        i = i + 1;
    }
    assert(out@ =~= layer_of_line(line@));
    Some(out)
}

/// The layers that a text describes, outputs first, or the first line with
/// an item that is not well formed.
pub fn parse_circuit(text: &[u8]) -> (r: Result<Vec<Vec<Gate>>, ParseError>)
    ensures
        r is Ok <==> forall|i: int| 0 <= i < text_lines(text@).len() ==> line_ok(#[trigger] text_lines(text@)[i]),
        r matches Ok(v) ==> v@.len() == text_lines(text@).len() && forall|i: int|
            0 <= i < v@.len() ==> (#[trigger] v@[i])@ == layer_of_line(text_lines(text@)[i]),
        r matches Err(ParseError::BadLine { line }) ==> {
            &&& line < text_lines(text@).len()
            &&& !line_ok(text_lines(text@)[line as int])
            &&& forall|i: int| 0 <= i < line ==> line_ok(#[trigger] text_lines(text@)[i])
        },
{
    let mut pieces = split_bytes(text, 10);
    let ghost all = nested_view(pieces@);
    let ghost lines = text_lines(text@);
    let n_pieces = pieces.len();
    proof {
        lemma_split_nonempty(text@, 10);
    }
    let mut count: usize = n_pieces;
    if pieces[n_pieces - 1].len() == 0 {
        count = n_pieces - 1;
    }
    assert(lines.len() == count);
    assert(forall|i: int| 0 <= i < count ==> #[trigger] lines[i] == pieces@[i]@);
    let mut out: Vec<Vec<Gate>> = Vec::new();
    let mut i: usize = 0;
    while i < count
        invariant
            count <= pieces@.len(),
            lines == text_lines(text@),
            lines.len() == count,
            forall|k: int| 0 <= k < count ==> #[trigger] lines[k] == pieces@[k]@,
            i <= count,
            out@.len() == i,
            forall|k: int| 0 <= k < i ==> line_ok(#[trigger] lines[k]),
            forall|k: int| 0 <= k < i ==> (#[trigger] out@[k])@ == layer_of_line(lines[k]),
        decreases count - i,
    {
        match parse_line(pieces[i].as_slice()) {
            Some(layer) => out.push(layer),
            None => {
                assert(!line_ok(lines[i as int]));
                return Err(ParseError::BadLine { line: i });
            },
        }
        i = i + 1;
    }
    Ok(out)
}

} // verus!
