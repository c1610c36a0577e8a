use crate::char_map::CharMap;
use crate::chars::chars_of;
use vstd::prelude::*;

verus! {

/// Why a stroke could not be turned into a fixed-width row of symbol codes.
#[derive(Debug, Clone, Copy, PartialEq, Eq, Structural)]
pub enum EncodeError {
    /// `symbol`, at character index `position` of the stroke, has no code.
    UnknownSymbol { symbol: char, position: usize },
    /// The stroke has `length` symbols, more than the row's `width`.
    TooLong { length: usize, width: usize },
}

/// Every symbol of `s` has a code.
pub open spec fn all_coded(s: Seq<char>, codes: Map<char, u32>) -> bool {
    forall|i: int| 0 <= i < s.len() ==> codes.contains_key(#[trigger] s[i])
}

/// The row for `s`: the code of each symbol in order, then `fill` up to `width`.
pub open spec fn encoded(s: Seq<char>, codes: Map<char, u32>, width: nat, fill: u32) -> Seq<u32> {
    s.map_values(|c: char| codes[c]) + Seq::new((width - s.len()) as nat, |i: int| fill)
}

/// `s` fits a row of `width` codes.
pub open spec fn encodable(s: Seq<char>, codes: Map<char, u32>, width: nat) -> bool {
    all_coded(s, codes) && s.len() <= width
}

/// `e` is the error that encoding `s` meets: the first symbol without a code,
/// or, where all have one, a length over `width`.
pub open spec fn fails_with(s: Seq<char>, codes: Map<char, u32>, width: nat, e: EncodeError) -> bool {
    match e {
        EncodeError::UnknownSymbol { symbol, position } => {
            &&& position < s.len()
            &&& symbol == s[position as int]
            &&& !codes.contains_key(symbol)
            &&& all_coded(s.subrange(0, position as int), codes)
        },
        EncodeError::TooLong { length, width: w } => {
            &&& all_coded(s, codes)
            &&& length == s.len()
            &&& w == width
            &&& length > width
        },
    }
}

/// Turns `stroke` into a row of exactly `width` codes: the code of each
/// symbol, then `fill` for the rest of the row.
pub fn encode_stroke(stroke: &str, codes: &CharMap<u32>, width: usize, fill: u32) -> (r: Result<
    Vec<u32>,
    EncodeError,
>)
    requires
        codes.wf(),
    ensures
        match r {
            Ok(v) => encodable(stroke@, codes@, width as nat) && v@ == encoded(
                stroke@,
                codes@,
                width as nat,
                fill,
            ),
            Err(e) => fails_with(stroke@, codes@, width as nat, e),
        },
{
    let s = chars_of(stroke);
    let mut row: Vec<u32> = Vec::new();
    let mut i: usize = 0;
    while i < s.len()
        invariant
            codes.wf(),
            s@ == stroke@,
            i <= s.len(),
            all_coded(s@.subrange(0, i as int), codes@),
            row@ == s@.subrange(0, i as int).map_values(|c: char| codes@[c]),
        decreases s.len() - i,
    {
        match codes.get(s[i]) {
            Some(code) => {
                row.push(*code);
                proof {
                    let next = s@.subrange(0, i + 1);
                    assert(next =~= s@.subrange(0, i as int).push(s@[i as int]));
                    assert(row@ =~= next.map_values(|c: char| codes@[c]));
                    assert forall|j: int| 0 <= j < next.len() implies codes@.contains_key(
                        #[trigger] next[j],
                    ) by {
                        if j < i {
                            assert(next[j] == s@.subrange(0, i as int)[j]);
                        }
                    }
                }
            },
            None => {
                return Err(EncodeError::UnknownSymbol { symbol: s[i], position: i });
            },
        }
        i = i + 1;
    }
    assert(s@.subrange(0, s.len() as int) =~= s@);
    if s.len() > width {
        return Err(EncodeError::TooLong { length: s.len(), width });
    }
    let ghost head = row@;
    let mut k: usize = s.len();
    while k < width
        invariant
            s.len() <= k <= width,
            row@ == head + Seq::new((k - s.len()) as nat, |i: int| fill),
        decreases width - k,
    {
        row.push(fill);
        assert(row@ =~= head + Seq::new((k + 1 - s.len()) as nat, |i: int| fill));
        k = k + 1;
    }
    Ok(row)
}

/// Encodes every stroke in order; fails with the error of the first stroke
/// that does not fit.
pub fn encode_strokes(strokes: &Vec<String>, codes: &CharMap<u32>, width: usize, fill: u32) -> (r:
    Result<Vec<Vec<u32>>, EncodeError>)
    requires
        codes.wf(),
    ensures
        match r {
            Ok(rows) => {
                &&& rows.len() == strokes.len()
                &&& forall|i: int|
                    0 <= i < strokes.len() ==> {
                        &&& encodable(#[trigger] strokes@[i]@, codes@, width as nat)
                        &&& rows@[i]@ == encoded(strokes@[i]@, codes@, width as nat, fill)
                    }
            },
            Err(e) => exists|i: int|
                0 <= i < strokes.len() && fails_with(#[trigger] strokes@[i]@, codes@, width as nat, e)
                    && forall|j: int| 0 <= j < i ==> encodable(#[trigger] strokes@[j]@, codes@, width as nat),
        },
{
    let mut rows: Vec<Vec<u32>> = Vec::new();
    let mut i: usize = 0;
    while i < strokes.len()
        invariant
            codes.wf(),
            i <= strokes.len(),
            rows.len() == i,
            forall|j: int|
                0 <= j < i ==> {
                    &&& encodable(#[trigger] strokes@[j]@, codes@, width as nat)
                    &&& rows@[j]@ == encoded(strokes@[j]@, codes@, width as nat, fill)
                },
        decreases strokes.len() - i,
    {
        let row = encode_stroke(strokes[i].as_str(), codes, width, fill)?;
        rows.push(row);
        i = i + 1;
    }
    Ok(rows)
}

} // verus!
