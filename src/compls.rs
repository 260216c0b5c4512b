//! Compact encoding of a point sequence: each point is the pair of its
//! quantized coordinate deltas, each delta one varint, all in one buffer.
use vstd::prelude::*;

use crate::varint::{decode_int, encode_int};
#[allow(unused_imports)]
use crate::varint::{decoding_of, encoding_of, is_terminal};

verus! {

/// How many decimal digits the coordinates are rounded to. `Two` suits
/// metric coordinate systems, `Seven` longitude and latitude in degrees,
/// `Other(d)` keeps `d` digits.
pub enum Precision {
    Two,
    Seven,
    Other(u8),
}

impl Precision {
    /// The number of decimal digits kept: the scale factor is ten to it.
    pub open spec fn digits_spec(&self) -> nat {
        match self {
            Precision::Two => 2,
            Precision::Seven => 7,
            Precision::Other(d) => *d as nat,
        }
    }

    /// The number of decimal digits kept.
    pub fn digits(&self) -> (r: u8)
        ensures
            r as nat == self.digits_spec(),
    {
        match self {
            Precision::Two => 2,
            Precision::Seven => 7,
            Precision::Other(d) => *d,
        }
    }
}

/// Why a sequence could not be encoded, or a buffer not accepted.
#[derive(Debug, Clone)]
pub enum CompLsError {
    /// Reserved for a sequence without points.
    EmptyLineString,
    /// A coordinate delta is not a finite number.
    BrokenLineString(String),
    /// The buffer does not hold a whole number of coordinate pairs.
    BrokenEncoding(String),
}

/// The number of terminal bytes in `s`.
pub open spec fn terminal_count(s: Seq<u8>) -> nat
    decreases s.len(),
{
    if s.len() == 0 {
        0
    } else {
        terminal_count(s.drop_last()) + if is_terminal(s.last()) {
            1nat
        } else {
            0nat
        }
    }
}

/// A buffer that holds a whole number of (x, y) pairs.
pub open spec fn well_formed(s: Seq<u8>) -> bool {
    terminal_count(s) % 2 == 0
}

/// The number of points that the bytes `s` stand for.
pub open spec fn point_count(s: Seq<u8>) -> nat {
    terminal_count(s) / 2
}

/// Counts the terminal bytes of `s`.
fn count_terminals(s: &[u8]) -> (r: usize)
    ensures
        r as nat == terminal_count(s@),
{
    let mut n: usize = 0;
    let mut j: usize = 0;
    while j < s.len()
        invariant
            j <= s@.len(),
            n as nat == terminal_count(s@.subrange(0, j as int)),
            n <= j,
        decreases s.len() - j,
    {
        proof {
            assert(s@.subrange(0, j as int + 1).drop_last() =~= s@.subrange(0, j as int));
        }
        if s[j] < 128 {
            n = n + 1;
        }
        j = j + 1;
    }
    assert(s@.subrange(0, s@.len() as int) =~= s@);
    n
}

/// The bytes of a sequence of quantized deltas: for each point its x delta,
/// then its y delta.
pub open spec fn encoding_of_deltas(d: Seq<(i64, i64)>) -> Seq<u8>
    decreases d.len(),
{
    if d.len() == 0 {
        Seq::empty()
    } else {
        encoding_of_deltas(d.drop_last()) + encoding_of(d.last().0) + encoding_of(d.last().1)
    }
}

/// Where the run of bytes that no terminal byte has closed yet begins: just
/// after the last terminal byte of `s`, or at 0.
pub open spec fn run_start(s: Seq<u8>) -> int
    decreases s.len(),
{
    if s.len() == 0 {
        0
    } else if is_terminal(s.last()) {
        s.len() as int
    } else {
        run_start(s.drop_last())
    }
}

/// The integers read from `s`, one for each run of bytes that a terminal
/// byte closes. Bytes after the last terminal byte are not read.
pub open spec fn values(s: Seq<u8>) -> Seq<i64>
    decreases s.len(),
{
    if s.len() == 0 {
        Seq::empty()
    } else if is_terminal(s.last()) {
        values(s.drop_last()).push(
            decoding_of(s.subrange(run_start(s.drop_last()), s.len() as int)),
        )
    } else {
        values(s.drop_last())
    }
}

/// The quantized deltas read from `s`: the integers taken two by two, an
/// unpaired last one left out.
pub open spec fn deltas(s: Seq<u8>) -> Seq<(i64, i64)> {
    Seq::new(values(s).len() / 2, |i: int| (values(s)[2 * i], values(s)[2 * i + 1]))
}

/// What an integer reads back as: itself, but zero, which reads back as -1.
pub open spec fn read_back(v: i64) -> i64 {
    if v == 0 {
        -1i64
    } else {
        v
    }
}

/// The deltas that reading back the encoding of `d` gives.
pub open spec fn read_back_deltas(d: Seq<(i64, i64)>) -> Seq<(i64, i64)> {
    d.map_values(|p: (i64, i64)| (read_back(p.0), read_back(p.1)))
}

proof fn lemma_run_start_bounds(s: Seq<u8>)
    ensures
        0 <= run_start(s) <= s.len(),
    decreases s.len(),
{
    if s.len() > 0 {
        lemma_run_start_bounds(s.drop_last());
    }
}

proof fn lemma_values_len(s: Seq<u8>)
    ensures
        values(s).len() == terminal_count(s),
    decreases s.len(),
{
    if s.len() > 0 {
        lemma_values_len(s.drop_last());
    }
}

/// A buffer that ends on a run boundary, followed by the bytes of one
/// integer but its terminal one, still reads as the buffer alone.
proof fn lemma_append_partial(s: Seq<u8>, v: i64, k: int)
    requires
        run_start(s) == s.len(),
        0 <= k < encoding_of(v).len(),
    ensures
        run_start(s + encoding_of(v).subrange(0, k)) == s.len(),
        values(s + encoding_of(v).subrange(0, k)) == values(s),
        terminal_count(s + encoding_of(v).subrange(0, k)) == terminal_count(s),
    decreases k,
{
    let e = encoding_of(v);
    crate::varint::lemma_encoding_shape(v);
    if k == 0 {
        assert(s + e.subrange(0, 0) =~= s);
    } else {
        lemma_append_partial(s, v, k - 1);
        let t = s + e.subrange(0, k);
        assert(t.drop_last() =~= s + e.subrange(0, k - 1));
        assert(t.last() == e[k - 1]);
    }
}

/// Appending the bytes of one integer to a buffer that ends on a run
/// boundary adds one terminal byte and reads back one more integer.
proof fn lemma_append_encoding(s: Seq<u8>, v: i64)
    requires
        run_start(s) == s.len(),
    ensures
        run_start(s + encoding_of(v)) == (s + encoding_of(v)).len(),
        values(s + encoding_of(v)) == values(s).push(read_back(v)),
        terminal_count(s + encoding_of(v)) == terminal_count(s) + 1,
{
    let e = encoding_of(v);
    crate::varint::lemma_encoding_shape(v);
    crate::varint::lemma_decode_encode(v);
    let k = e.len() - 1;
    lemma_append_partial(s, v, k);
    let t = s + e;
    assert(t.drop_last() =~= s + e.subrange(0, k));
    assert(t.subrange(s.len() as int, t.len() as int) =~= e);
}

/// Reading back the encoding of `d` gives its deltas, a zero read as -1.
proof fn lemma_encoding_of_deltas(d: Seq<(i64, i64)>)
    ensures
        run_start(encoding_of_deltas(d)) == encoding_of_deltas(d).len(),
        terminal_count(encoding_of_deltas(d)) == 2 * d.len(),
        values(encoding_of_deltas(d)).len() == 2 * d.len(),
        forall|i: int|
            0 <= i < d.len() ==> values(encoding_of_deltas(d))[2 * i] == read_back(
                #[trigger] d[i].0,
            ) && values(encoding_of_deltas(d))[2 * i + 1] == read_back(d[i].1),
    decreases d.len(),
{
    if d.len() > 0 {
        let p = d.drop_last();
        lemma_encoding_of_deltas(p);
        let a = encoding_of_deltas(p);
        lemma_append_encoding(a, d.last().0);
        lemma_append_encoding(a + encoding_of(d.last().0), d.last().1);
        let vs = values(encoding_of_deltas(d));
        assert(encoding_of_deltas(d) == a + encoding_of(d.last().0) + encoding_of(d.last().1));
        assert(vs == values(a).push(read_back(d.last().0)).push(read_back(d.last().1)));
        assert forall|i: int| 0 <= i < d.len() implies vs[2 * i] == read_back(
            #[trigger] d[i].0,
        ) && vs[2 * i + 1] == read_back(d[i].1) by {
            if i < p.len() {
                assert(d[i] == p[i]);
                assert(values(a)[2 * i] == read_back(p[i].0));
                assert(vs[2 * i] == values(a)[2 * i]);
                assert(vs[2 * i + 1] == values(a)[2 * i + 1]);
            } else {
                assert(d[i] == d.last());
            }
        }
    } else {
        assert(values(Seq::<u8>::empty()) =~= Seq::<i64>::empty());
    }
}

/// Decoding an encoding gives back the quantized deltas it was made from,
/// except that a zero delta reads back as -1.
pub proof fn lemma_round_trip(d: Seq<(i64, i64)>)
    ensures
        deltas(encoding_of_deltas(d)) == read_back_deltas(d),
{
    lemma_encoding_of_deltas(d);
    assert(deltas(encoding_of_deltas(d)) =~= read_back_deltas(d));
}

/// The encoding of any sequence of deltas holds an even number of terminal
/// bytes, two for each point.
pub proof fn lemma_encoding_well_formed(d: Seq<(i64, i64)>)
    ensures
        well_formed(encoding_of_deltas(d)),
        point_count(encoding_of_deltas(d)) == d.len(),
{
    lemma_encoding_of_deltas(d);
}

/// The point count of any buffer is the number of points that decoding it
/// gives.
pub proof fn lemma_size_agreement(s: Seq<u8>)
    ensures
        point_count(s) == deltas(s).len(),
{
    lemma_values_len(s);
}

/// A compact encoding: a byte buffer with an even number of terminal bytes.
#[derive(Debug, Clone)]
pub struct CompLs {
    coords: Vec<u8>,
}

impl View for CompLs {
    type V = Seq<u8>;

    closed spec fn view(&self) -> Seq<u8> {
        self.coords@
    }
}

impl CompLs {
    /// This encoding holds a whole number of points.
    pub open spec fn wf(&self) -> bool {
        well_formed(self@)
    }

    /// Takes a copy of `coords` as an encoding, after checking that it holds
    /// an even number of terminal bytes.
    pub fn try_new(coords: &[u8]) -> (r: Result<CompLs, CompLsError>)
        ensures
            well_formed(coords@) <==> r is Ok,
            r matches Ok(c) ==> c@ == coords@ && c.wf(),
            r matches Err(e) ==> e is BrokenEncoding,
    {
        let s = count_terminals(coords);
        if s % 2 == 0 {
            Ok(CompLs { coords: vstd::slice::slice_to_vec(coords) })
        } else {
            Err(
                CompLsError::BrokenEncoding(
                    "number of coordinates in encoding is odd, must be even".to_owned(),
                ),
            )
        }
    }

    /// The number of points, counted without decoding any value.
    pub fn size(&self) -> (r: usize)
        ensures
            r as nat == point_count(self@),
    {
        count_terminals(self.coords.as_slice()) / 2
    }

    /// Encodes quantized coordinate deltas, x then y for each point.
    pub fn encode_quantized(deltas: &[(i64, i64)]) -> (r: CompLs)
        ensures
            r@ == encoding_of_deltas(deltas@),
            r.wf(),
            point_count(r@) == deltas@.len(),
    {
        let mut coords: Vec<u8> = Vec::new();
        let mut k: usize = 0;
        proof {
            assert(deltas@.subrange(0, 0) =~= Seq::<(i64, i64)>::empty());
        }
        while k < deltas.len()
            invariant
                k <= deltas@.len(),
                coords@ == encoding_of_deltas(deltas@.subrange(0, k as int)),
            decreases deltas.len() - k,
        {
            let (x, y) = deltas[k];
            encode_int(x, &mut coords);
            encode_int(y, &mut coords);
            proof {
                let p = deltas@.subrange(0, k as int + 1);
                assert(p.drop_last() =~= deltas@.subrange(0, k as int));
                assert(p.last() == (x, y));
            }
            k = k + 1;
        }
        proof {
            assert(deltas@.subrange(0, deltas@.len() as int) =~= deltas@);
            lemma_encoding_well_formed(deltas@);
        }
        CompLs { coords }
    }

    /// Decodes the quantized coordinate deltas, x then y for each point.
    pub fn quantized_deltas(&self) -> (r: Vec<(i64, i64)>)
        ensures
            r@ == deltas(self@),
    {
        let s = self.coords.as_slice();
        let mut out: Vec<(i64, i64)> = Vec::new();
        let mut coord_x: Option<i64> = None;
        let mut i: usize = 0;
        let mut j: usize = 0;
        while j < s.len()
            invariant
                s@ == self@,
                j <= s@.len(),
                i as int == run_start(s@.subrange(0, j as int)),
                values(s@.subrange(0, j as int)).len() == 2 * out@.len() + if coord_x is Some {
                    1int
                } else {
                    0int
                },
                forall|k: int|
                    0 <= k < out@.len() ==> #[trigger] out@[k] == (
                        values(s@.subrange(0, j as int))[2 * k],
                        values(s@.subrange(0, j as int))[2 * k + 1],
                    ),
                coord_x matches Some(x) ==> x == values(s@.subrange(0, j as int)).last(),
            decreases s.len() - j,
        {
            let ghost pre = s@.subrange(0, j as int);
            let ghost post = s@.subrange(0, j as int + 1);
            proof {
                assert(post.drop_last() =~= pre);
                lemma_run_start_bounds(pre);
            }
            if s[j] < 128 {
                let v = decode_int(vstd::slice::slice_subrange(s, i, j + 1));
                proof {
                    assert(post.subrange(i as int, post.len() as int) =~= s@.subrange(
                        i as int,
                        j as int + 1,
                    ));
                    assert(values(post) == values(pre).push(v));
                }
                match coord_x {
                    Some(x) => {
                        out.push((x, v));
                        coord_x = None;
                    },
                    None => {
                        coord_x = Some(v);
                    },
                }
                i = j + 1;
            }
            j = j + 1;
        }
        proof {
            assert(s@.subrange(0, s@.len() as int) =~= s@);
            assert(out@ =~= deltas(self@));
        }
        out
    }

    /// The bytes of this encoding.
    pub fn as_bytes(&self) -> (r: &[u8])
        ensures
            r@ == self@,
    {
        self.coords.as_slice()
    }
}

} // verus!
